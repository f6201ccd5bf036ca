//! Quantized weight formats.
//!
//! Reads the block formats used in practice by 8 B-class LLaMA models:
//!
//! * `Q4_0`: 32-element blocks, an f16 scale and 16 packed bytes
//! * `Q4_K`: 256-element super-blocks with per-sub-block 6-bit scales
//! * `F16` / `BF16`: direct conversion to f32
//! * `F32`: identity copy
//!
//! Blocks are unpacked into scales and small integers; what an element weighs
//! is the product of these.

use vstd::arithmetic::power2::*;
use vstd::prelude::*;
use crate::bytes;
use crate::bytes::read_le;
use crate::gguf::GgmlType;
use crate::scalar::F32;

verus! {

// ── f16 helpers ───────────────────────────────────────────────────────────────

/// The place of the highest bit of a number.
pub open spec fn top_bit(n: nat) -> nat
    decreases n,
{
    if n < 2 {
        0
    } else {
        1 + top_bit(n / 2)
    }
}

/// The pattern of the f32 that has the value of an f16: the exponent is shifted
/// by the difference of the biases and the fraction is filled up with zeros.
/// Small f16 numbers have an f32 exponent of their own.
pub open spec fn widened(bits: u16) -> nat {
    let sign = (bits / 0x8000) as nat * 0x8000_0000;
    let exp = (bits / 1024 % 32) as nat;
    let mant = (bits % 1024) as nat;
    if exp == 31 {
        sign + 0x7F80_0000 + mant * 8192
    } else if exp > 0 {
        sign + (exp + 112) * 0x80_0000 + mant * 8192
    } else if mant == 0 {
        sign
    } else {
        let k = top_bit(mant);
        sign + (103 + k) * 0x80_0000 + ((mant - pow2(k)) * pow2((23 - k) as nat)) as nat
    }
}

proof fn lemma_top_bit(n: nat)
    requires
        0 < n < 1024,
    ensures
        pow2(top_bit(n)) <= n < 2 * pow2(top_bit(n)),
        top_bit(n) <= 9,
{
    reveal_with_fuel(top_bit, 11);
    lemma2_to64();
}

/// Convert an IEEE 754 binary16 pattern to f32.
pub fn f16_to_f32(bits: u16) -> (v: F32)
    ensures
        v.bits == widened(bits),
{
    let sign: u32 = (bits / 0x8000) as u32 * 0x8000_0000;
    let exp: u32 = (bits / 1024 % 32) as u32;
    let mant: u32 = (bits % 1024) as u32;
    if exp == 31 {
        F32::from_bits(sign + 0x7F80_0000 + mant * 8192)
    } else if exp > 0 {
        F32::from_bits(sign + (exp + 112) * 0x80_0000 + mant * 8192)
    } else if mant == 0 {
        F32::from_bits(sign)
    } else {
        proof {
            lemma_top_bit(mant as nat);
            lemma2_to64();
        }
        let mut k: u32 = 0;
        let mut weight: u32 = 1;
        let mut room: u32 = 0x80_0000;
        while weight * 2 <= mant
            invariant
                0 < mant < 1024,
                weight == pow2(k as nat),
                room == pow2((23 - k) as nat),
                weight <= mant,
                k <= top_bit(mant as nat) <= 9,
                pow2(top_bit(mant as nat)) <= mant < 2 * pow2(top_bit(mant as nat)),
            decreases mant - weight,
        {
            proof {
                lemma2_to64();
                if k == top_bit(mant as nat) {
                    assert(false);
                }
                lemma_pow2_unfold((k + 1) as nat);
                lemma_pow2_unfold((23 - k) as nat);
            }
            weight = weight * 2;
            room = room / 2;
            k = k + 1;
        }
        proof {
            if k < top_bit(mant as nat) {
                lemma_pow2_strictly_increases(k as nat, top_bit(mant as nat));
                lemma_pow2_unfold((k + 1) as nat);
                if k + 1 < top_bit(mant as nat) {
                    lemma_pow2_strictly_increases((k + 1) as nat, top_bit(mant as nat));
                }
                assert(false);
            }
            lemma_pow2_adds(k as nat, (23 - k) as nat);
            lemma2_to64();
            assert(weight * room == 0x80_0000);
            assert((mant - weight) * room < 0x80_0000) by (nonlinear_arith)
                requires
                    weight <= mant < 2 * weight,
                    weight * room == 0x80_0000,
                    room > 0,
            ;
        }
        F32::from_bits(sign + (103 + k) * 0x80_0000 + (mant - weight) * room)
    }
}

/// The value of a finite f16, in units of two to the power of minus 149.
pub open spec fn f16_value(bits: u16) -> int {
    let exp = (bits / 1024 % 32) as nat;
    let mant = (bits % 1024) as nat;
    let size = if exp == 0 {
        mant * pow2(125)
    } else {
        (1024 + mant) * pow2(124 + exp)
    };
    if bits >= 0x8000 {
        -(size as int)
    } else {
        size as int
    }
}

/// The value of a finite f32, in units of two to the power of minus 149.
pub open spec fn f32_value(bits: nat) -> int {
    let exp = bits / 0x80_0000 % 256;
    let mant = bits % 0x80_0000;
    let size = if exp == 0 {
        mant
    } else {
        (0x80_0000 + mant) * pow2((exp - 1) as nat)
    };
    if bits >= 0x8000_0000 {
        -(size as int)
    } else {
        size as int
    }
}

/// Widening keeps the value of every finite number.
pub proof fn widening_keeps_the_value(bits: u16)
    requires
        bits / 1024 % 32 != 31,
    ensures
        f32_value(widened(bits)) == f16_value(bits),
{
    let exp = (bits / 1024 % 32) as nat;
    let mant = (bits % 1024) as nat;
    let sign = (bits / 0x8000) as nat;
    let wide = widened(bits);
    lemma2_to64();
    if exp > 0 {
        let m = mant * 8192;
        assert(wide % 0x80_0000 == m);
        assert(wide / 0x80_0000 % 256 == exp + 112);
        lemma_pow2_adds(13, (exp + 111) as nat);
        assert((0x80_0000 + mant * 8192) * pow2((exp + 111) as nat) == (1024 + mant) * (8192 * pow2(
            (exp + 111) as nat,
        ))) by (nonlinear_arith);
        assert(8192 * pow2((exp + 111) as nat) == pow2(124 + exp));
    } else if mant == 0 {
        assert(wide % 0x80_0000 == 0);
        assert(wide / 0x80_0000 % 256 == 0);
        assert(mant * pow2(125) == 0) by (nonlinear_arith)
            requires
                mant == 0,
        ;
    } else {
        lemma_top_bit(mant);
        let k = top_bit(mant);
        let room = pow2((23 - k) as nat);
        let p = pow2(k);
        lemma_pow2_adds(k, (23 - k) as nat);
        assert(p * room == 0x80_0000);
        let m = (mant - p) * room;
        assert(0 <= m < 0x80_0000) by (nonlinear_arith)
            requires
                m == (mant - p) * room,
                p <= mant < 2 * p,
                p * room == 0x80_0000,
                room > 0,
        ;
        assert(wide % 0x80_0000 == m);
        assert(wide / 0x80_0000 % 256 == 103 + k);
        let e = pow2(102 + k);
        assert((0x80_0000 + m) * e == mant * (room * e)) by (nonlinear_arith)
            requires
                m == (mant - p) * room,
                p * room == 0x80_0000,
        ;
        lemma_pow2_adds((23 - k) as nat, 102 + k);
        assert(room * e == pow2(125));
    }
}

/// A set sign bit stays the sign bit and changes nothing else.
pub proof fn widening_keeps_the_sign(bits: u16)
    requires
        bits < 0x8000,
    ensures
        widened(bits) < 0x8000_0000,
        widened((bits + 0x8000) as u16) == widened(bits) + 0x8000_0000,
        bits / 1024 % 32 != 31 ==> f16_value((bits + 0x8000) as u16) == -f16_value(bits),
{
    let mant = (bits % 1024) as nat;
    let other = (bits + 0x8000) as u16;
    assert(other / 1024 % 32 == bits / 1024 % 32);
    assert(other % 1024 == bits % 1024);
    assert(other / 0x8000 == 1);
    if bits / 1024 % 32 == 0 && mant > 0 {
        lemma_top_bit(mant);
        let k = top_bit(mant);
        let room = pow2((23 - k) as nat);
        let p = pow2(k);
        lemma2_to64();
        lemma_pow2_adds(k, (23 - k) as nat);
        assert(0 <= (mant - p) * room < 0x80_0000) by (nonlinear_arith)
            requires
                p <= mant < 2 * p,
                p * room == 0x80_0000,
                room > 0,
        ;
    }
}

/// What is no finite number stays none: the infinity becomes the infinity, and every
/// other such pattern keeps the highest exponent and a fraction that is not zero.
pub proof fn widening_keeps_infinities_and_nans(bits: u16)
    requires
        bits / 1024 % 32 == 31,
    ensures
        bits == 0x7C00 ==> widened(bits) == 0x7F80_0000,
        bits == 0xFC00 ==> widened(bits) == 0xFF80_0000,
        bits % 1024 != 0 ==> widened(bits) / 0x80_0000 % 256 == 255 && widened(bits) % 0x80_0000
            == (bits % 1024) * 8192,
{
    let mant = (bits % 1024) as nat;
    assert((mant * 8192) % 0x80_0000 == mant * 8192);
}

/// Among the positive finite f16 patterns, one step of the exponent doubles the
/// value, steps of the fraction are equally wide, and 0x3C00 stands for one.
pub proof fn halves_are_spaced_by_their_exponent(bits: u16)
    requires
        bits < 0x7C00,
    ensures
        1024 <= bits < 0x7800 ==> f16_value((bits + 1024) as u16) == 2 * f16_value(bits),
        bits < 1024 ==> f16_value((bits + 1024) as u16) == f16_value(bits) + f16_value(1024),
        bits < 1024 ==> f16_value(bits) == bits * f16_value(1),
        1024 * f16_value(1) == f16_value(1024),
        f16_value(0x3C00) == pow2(149),
        f32_value(0x3F80_0000) == pow2(149),
{
    lemma2_to64();
    let exp = (bits / 1024 % 32) as nat;
    let mant = (bits % 1024) as nat;
    if bits < 0x7800 {
        let next = (bits + 1024) as u16;
        assert(next / 1024 % 32 == exp + 1);
        assert(next % 1024 == mant);
        lemma_pow2_unfold((124 + exp + 1) as nat);
        let p = pow2((124 + exp) as nat);
        assert((1024 + mant) * (2 * p) == 2 * ((1024 + mant) * p)) by (nonlinear_arith);
    }
    assert((1024 + mant) * pow2(125) == mant * pow2(125) + 1024 * pow2(125)) by (nonlinear_arith);
    assert(1 * pow2(125) == pow2(125)) by (nonlinear_arith);
    lemma_pow2_adds(10, 139);
    lemma_pow2_adds(23, 126);
    assert(f16_value(0x3C00) == 1024 * pow2(139));
    assert(f32_value(0x3F80_0000) == 0x80_0000 * pow2(126));
}

proof fn lemma_magnitudes_grow(a: nat, b: nat)
    requires
        a < b < 0x7F80_0000,
    ensures
        0 <= f32_value(a) < f32_value(b),
{
    lemma2_to64();
    let ea = a / 0x80_0000;
    let eb = b / 0x80_0000;
    let ma = a % 0x80_0000;
    let mb = b % 0x80_0000;
    assert(ea % 256 == ea && eb % 256 == eb);
    if ea == 0 {
        if eb > 0 {
            let p = pow2((eb - 1) as nat);
            lemma_pow2_pos((eb - 1) as nat);
            assert((0x80_0000 + mb) * p >= 0x80_0000) by (nonlinear_arith)
                requires
                    p >= 1,
            ;
        }
    } else {
        let p = pow2((ea - 1) as nat);
        lemma_pow2_pos((ea - 1) as nat);
        if ea == eb {
            assert((0x80_0000 + ma) * p < (0x80_0000 + mb) * p) by (nonlinear_arith)
                requires
                    ma < mb,
                    p >= 1,
            ;
        } else {
            let q = pow2((eb - 1) as nat);
            lemma_pow2_unfold(ea);
            if ea < eb - 1 {
                lemma_pow2_strictly_increases(ea, (eb - 1) as nat);
            }
            assert(q >= 2 * p);
            assert((0x80_0000 + ma) * p < (0x80_0000 + mb) * q) by (nonlinear_arith)
                requires
                    ma < 0x80_0000,
                    q >= 2 * p,
                    p >= 1,
            ;
        }
        assert((0x80_0000 + ma) * p >= 0) by (nonlinear_arith)
            requires
                p >= 1,
        ;
    }
}

/// Finite numbers are ordered by their values.
pub proof fn ranks_order_numbers_by_value(a: F32, b: F32)
    requires
        a.bits % 0x8000_0000 < 0x7F80_0000,
        b.bits % 0x8000_0000 < 0x7F80_0000,
    ensures
        !a.nan(),
        a.rank() < b.rank() <==> f32_value(a.bits as nat) < f32_value(b.bits as nat),
        a.at_least(b) <==> f32_value(a.bits as nat) >= f32_value(b.bits as nat),
        a.below(b) <==> f32_value(a.bits as nat) < f32_value(b.bits as nat),
{
    let x = (a.bits % 0x8000_0000) as nat;
    let y = (b.bits % 0x8000_0000) as nat;
    lemma_sign(a);
    lemma_sign(b);
    assert(f32_value(0) == 0);
    if x > 0 {
        lemma_magnitudes_grow(0, x);
    }
    if y > 0 {
        lemma_magnitudes_grow(0, y);
    }
    if x < y {
        lemma_magnitudes_grow(x, y);
    } else if y < x {
        lemma_magnitudes_grow(y, x);
    }
}

proof fn lemma_sign(a: F32)
    ensures
        ({
            let x = (a.bits % 0x8000_0000) as nat;
            &&& a.magnitude() == x
            &&& f32_value(a.bits as nat) == (if a.negative() {
                -f32_value(x)
            } else {
                f32_value(x)
            })
        }),
{
    let x = (a.bits % 0x8000_0000) as nat;
    if a.negative() {
        assert(a.bits == x + 0x8000_0000);
        assert((x + 0x8000_0000) / 0x80_0000 % 256 == x / 0x80_0000 % 256);
        assert((x + 0x8000_0000) % 0x80_0000 == x % 0x80_0000);
    }
}

/// Convert a BF16 (brain float) word to f32.
pub fn bf16_to_f32(bits: u16) -> (v: F32)
    ensures
        v.bits == bits as nat * 65536,
{
    F32::from_bits(bits as u32 * 65536)
}

// ── Q4_0 ─────────────────────────────────────────────────────────────────────

/// Block layout: 2 bytes (f16 delta) + 16 bytes (32 nibbles) = 18 bytes.
pub const Q4_0_BLOCK: usize = 18;

pub const Q4_0_ELEMS: usize = 32;

/// A Q4_0 block: element `i` weighs `delta` times `levels[i]`.
#[derive(Debug)]
pub struct Q4Block {
    pub delta: F32,
    pub levels: Vec<i8>,
}

/// The little-endian f16 at a place.
pub open spec fn f16_at(data: Seq<u8>, at: int) -> u16 {
    (data[at] + data[at + 1] * 256) as u16
}

/// Half of a byte: the lower half for even places, the upper for odd ones.
pub open spec fn nibble(data: Seq<u8>, at: int, i: int) -> u8 {
    if i % 2 == 0 {
        (data[at + i / 2] % 16) as u8
    } else {
        (data[at + i / 2] / 16) as u8
    }
}

/// What a block of 18 bytes holds.
pub open spec fn is_q4_block(b: Q4Block, data: Seq<u8>, at: int) -> bool {
    &&& b.delta.bits == widened(f16_at(data, at))
    &&& b.levels@.len() == Q4_0_ELEMS
    &&& forall|i: int|
        0 <= i < Q4_0_ELEMS ==> #[trigger] b.levels@[i] == nibble(data, at + 2, i) as int - 8
}

/// The byte whose halves are the levels `2 * k` and `2 * k + 1`, the even one below.
pub open spec fn packed_levels(levels: Seq<i8>, k: int) -> int {
    (levels[2 * k] + 8) + 16 * (levels[2 * k + 1] + 8)
}

/// The first byte of an f16 counts once, the second 256 times.
pub proof fn halves_are_little_endian(data: Seq<u8>, at: int)
    ensures
        f16_at(data, at) % 256 == data[at],
        f16_at(data, at) / 256 == data[at + 1],
{
}

/// Packing the levels of a block gives its bytes back, and its scale has the value
/// of the f16 in front of them.
pub proof fn q4_blocks_pack_back(b: Q4Block, data: Seq<u8>, at: int, k: int)
    requires
        is_q4_block(b, data, at),
        0 <= k < 16,
    ensures
        packed_levels(b.levels@, k) == data[at + 2 + k],
        -8 <= b.levels@[2 * k] < 8,
        -8 <= b.levels@[2 * k + 1] < 8,
        data[at + 1] / 4 % 32 != 31 ==> f32_value(b.delta.bits as nat) == f16_value(
            (data[at] + 256 * data[at + 1]) as u16,
        ),
{
    assert(b.levels@[2 * k] == nibble(data, at + 2, 2 * k) as int - 8);
    assert(b.levels@[2 * k + 1] == nibble(data, at + 2, 2 * k + 1) as int - 8);
    let bits = f16_at(data, at);
    if data[at + 1] / 4 % 32 != 31 {
        assert(bits / 1024 == data[at + 1] / 4);
        widening_keeps_the_value(bits);
    }
}

/// Blocks that differ in a packed byte differ in their levels.
pub proof fn q4_blocks_that_differ_have_other_levels(
    a: Q4Block,
    b: Q4Block,
    left: Seq<u8>,
    right: Seq<u8>,
    k: int,
)
    requires
        is_q4_block(a, left, 0),
        is_q4_block(b, right, 0),
        0 <= k < 16,
        left[2 + k] != right[2 + k],
    ensures
        a.levels@ != b.levels@,
{
    q4_blocks_pack_back(a, left, 0, k);
    q4_blocks_pack_back(b, right, 0, k);
}

/// Reads the little-endian f16 at a place.
fn read_f16(data: &[u8], at: usize) -> (bits: u16)
    requires
        at + 2 <= data@.len(),
    ensures
        bits == f16_at(data@, at as int),
{
    let len: usize = data.len();
    let lo: u16 = data[at] as u16;
    let hi: u16 = data[at + 1] as u16;
    lo + hi * 256
}

/// Unpacks the Q4_0 block at `at`.
pub fn unpack_q4_0_block(data: &[u8], at: usize) -> (b: Q4Block)
    requires
        at + Q4_0_BLOCK <= data@.len(),
    ensures
        is_q4_block(b, data@, at as int),
        forall|k: int|
            0 <= k < 16 ==> #[trigger] packed_levels(b.levels@, k) == data@[at + 2 + k],
{
    let len: usize = data.len();
    let delta: F32 = f16_to_f32(read_f16(data, at));
    let mut levels: Vec<i8> = Vec::with_capacity(Q4_0_ELEMS);
    let mut i: usize = 0;
    while i < 16
        invariant
            i <= 16,
            at + Q4_0_BLOCK <= len == data@.len(),
            levels@.len() == 2 * i,
            forall|k: int|
                0 <= k < 2 * i ==> #[trigger] levels@[k] == nibble(data@, at + 2, k) as int - 8,
        decreases 16 - i,
    {
        let byte: u8 = data[at + 2 + i];
        levels.push((byte % 16) as i8 - 8);
        levels.push((byte / 16) as i8 - 8);
        i = i + 1;
    }
    let b = Q4Block { delta, levels };
    proof {
        assert forall|k: int| 0 <= k < 16 implies #[trigger] packed_levels(b.levels@, k)
            == data@[at + 2 + k] by {
            q4_blocks_pack_back(b, data@, at as int, k);
        }
    }
    b
}

/// Unpacks a Q4_0 row of `n` elements: whole blocks, one after the other.
pub fn unpack_q4_0_row(data: &[u8], n: usize) -> (blocks: Vec<Q4Block>)
    requires
        n / Q4_0_ELEMS * Q4_0_BLOCK <= data@.len(),
    ensures
        blocks@.len() == n / Q4_0_ELEMS,
        forall|b: int|
            0 <= b < blocks@.len() ==> is_q4_block(
                #[trigger] blocks@[b],
                data@,
                b * Q4_0_BLOCK,
            ),
        forall|b: int, k: int|
            0 <= b < blocks@.len() && 0 <= k < 16 ==> #[trigger] packed_levels(
                blocks@[b].levels@,
                k,
            ) == data@[18 * b + 2 + k],
{
    let n_blocks: usize = n / Q4_0_ELEMS;
    let len: usize = data.len();
    let mut blocks: Vec<Q4Block> = Vec::with_capacity(n_blocks);
    let mut b: usize = 0;
    while b < n_blocks
        invariant
            b <= n_blocks,
            n_blocks * Q4_0_BLOCK <= len == data@.len(),
            blocks@.len() == b,
            forall|k: int|
                0 <= k < b ==> is_q4_block(#[trigger] blocks@[k], data@, k * Q4_0_BLOCK),
        decreases n_blocks - b,
    {
        blocks.push(unpack_q4_0_block(data, b * Q4_0_BLOCK));
        b = b + 1;
    }
    proof {
        assert forall|b: int, k: int|
            0 <= b < blocks@.len() && 0 <= k < 16 implies #[trigger] packed_levels(
            blocks@[b].levels@,
            k,
        ) == data@[18 * b + 2 + k] by {
            q4_blocks_pack_back(blocks@[b], data@, b * Q4_0_BLOCK, k);
        }
    }
    blocks
}

// ── Q4_K ─────────────────────────────────────────────────────────────────────

/// Super-block layout (144 bytes, 256 elements):
///   2  d      (f16 scale)
///   2  dmin   (f16 min scale)
///   12 scales (8 x 6-bit scale + 8 x 6-bit min, packed)
///   128 qs    (256 nibbles)
pub const Q4K_BLOCK: usize = 144;

pub const Q4K_ELEMS: usize = 256;

/// Sub-blocks per super-block.
pub const Q4K_SUBS: usize = 8;

/// Elements per sub-block.
pub const Q4K_SUB_ELEMS: usize = 32;

/// A Q4_K super-block: element `i` of sub-block `s` weighs
/// `d * scale * q - dmin * min`, with the scale and min of the sub-block.
#[derive(Debug)]
pub struct Q4kBlock {
    pub d: F32,
    pub dmin: F32,
    pub scales: Vec<(u8, u8)>,
    pub qs: Vec<u8>,
}

/// The scale of sub-block `i`, out of the 12 packed bytes at `at`.
pub open spec fn q4k_scale(data: Seq<u8>, at: int, i: int) -> u8 {
    if i < 4 {
        ((data[at + i] & 0x3F) | ((data[at + i + 8] & 0x0F) << 4)) & 0x3F
    } else {
        (data[at + i + 4] & 0x3F) & 0x3F
    }
}

/// The min of sub-block `i`, out of the 12 packed bytes at `at`.
pub open spec fn q4k_min(data: Seq<u8>, at: int, i: int) -> u8 {
    if i < 4 {
        ((data[at + i + 4] & 0x3F) | ((data[at + i + 8] >> 4) << 4)) & 0x3F
    } else {
        ((data[at + i + 4] >> 4) | ((data[at + i] >> 4) << 4)) & 0x3F
    }
}

/// Unpack the 12-byte scale field at `at` into 8 (scale, min) pairs.
pub fn unpack_q4k_scales(data: &[u8], at: usize) -> (pairs: Vec<(u8, u8)>)
    requires
        at + 12 <= data@.len(),
    ensures
        pairs@.len() == Q4K_SUBS,
        forall|i: int|
            0 <= i < Q4K_SUBS ==> #[trigger] pairs@[i] == (
                q4k_scale(data@, at as int, i),
                q4k_min(data@, at as int, i),
            ),
{
    let len: usize = data.len();
    let mut pairs: Vec<(u8, u8)> = Vec::with_capacity(Q4K_SUBS);
    let mut i: usize = 0;
    while i < 4
        invariant
            i <= 4,
            at + 12 <= len == data@.len(),
            pairs@.len() == i,
            forall|k: int|
                0 <= k < i ==> #[trigger] pairs@[k] == (
                    q4k_scale(data@, at as int, k),
                    q4k_min(data@, at as int, k),
                ),
        decreases 4 - i,
    {
        let a: u8 = data[at + i];
        let b: u8 = data[at + i + 4];
        let c: u8 = data[at + i + 8];
        let sc: u8 = ((a & 0x3F) | ((c & 0x0F) << 4)) & 0x3F;
        let mn: u8 = ((b & 0x3F) | ((c >> 4) << 4)) & 0x3F;
        pairs.push((sc, mn));
        i = i + 1;
    }
    while i < 8
        invariant
            4 <= i <= 8,
            at + 12 <= len == data@.len(),
            pairs@.len() == i,
            forall|k: int|
                0 <= k < i ==> #[trigger] pairs@[k] == (
                    q4k_scale(data@, at as int, k),
                    q4k_min(data@, at as int, k),
                ),
        decreases 8 - i,
    {
        let b: u8 = data[at + i];
        let c: u8 = data[at + i + 4];
        let sc: u8 = (c & 0x3F) & 0x3F;
        let mn: u8 = ((c >> 4) | ((b >> 4) << 4)) & 0x3F;
        pairs.push((sc, mn));
        i = i + 1;
    }
    pairs
}

/// Scales and mins have six bits.
pub proof fn q4k_scales_have_six_bits(data: Seq<u8>, at: int, i: int)
    ensures
        q4k_scale(data, at, i) < 64,
        q4k_min(data, at, i) < 64,
{
    let a = data[at + i];
    let b = data[at + i + 4];
    let c = data[at + i + 8];
    assert(((a & 0x3F) | ((c & 0x0F) << 4)) & 0x3F < 64) by (bit_vector);
    assert(((b & 0x3F) | ((c >> 4) << 4)) & 0x3F < 64) by (bit_vector);
    assert((b & 0x3F) & 0x3F < 64) by (bit_vector);
    assert(((b >> 4) | ((a >> 4) << 4)) & 0x3F < 64) by (bit_vector);
}

/// What a super-block of 144 bytes holds.
pub open spec fn is_q4k_block(b: Q4kBlock, data: Seq<u8>, at: int) -> bool {
    &&& b.d.bits == widened(f16_at(data, at))
    &&& b.dmin.bits == widened(f16_at(data, at + 2))
    &&& b.scales@.len() == Q4K_SUBS
    &&& forall|i: int|
        0 <= i < Q4K_SUBS ==> #[trigger] b.scales@[i] == (
            q4k_scale(data, at + 4, i),
            q4k_min(data, at + 4, i),
        )
    &&& b.qs@.len() == Q4K_ELEMS
    &&& forall|i: int|
        0 <= i < Q4K_ELEMS ==> #[trigger] b.qs@[i] == nibble(data, at + 16, i)
}

/// The byte whose halves are the quants `2 * k` and `2 * k + 1`, the even one below.
pub open spec fn packed_quants(qs: Seq<u8>, k: int) -> int {
    qs[2 * k] + 16 * qs[2 * k + 1]
}

/// The scale of each of the first four sub-blocks has the lower half of the byte of
/// its own place, and above it the two bits that this byte or the byte eight places on
/// sets. The scale of each later one is the lower six bits of the byte four places on.
pub proof fn q4k_scales_by_their_bits(data: Seq<u8>, at: int, i: int)
    requires
        0 <= i < 8,
    ensures
        ({
            let s = q4k_scale(data, at, i);
            let own = data[at + i];
            let far = data[at + i + 8];
            &&& i < 4 ==> s < 64 && s % 16 == own % 16
            &&& i < 4 ==> (s / 16 % 2 == 1 <==> own / 16 % 2 == 1 || far % 2 == 1)
            &&& i < 4 ==> (s / 32 == 1 <==> own / 32 % 2 == 1 || far / 2 % 2 == 1)
            &&& i >= 4 ==> s == data[at + i + 4] % 64
        }),
{
    let a = data[at + i];
    let c = data[at + i + 8];
    let d = data[at + i + 4];
    assert({
        let s = ((a & 0x3F) | ((c & 0x0F) << 4)) & 0x3F;
        s < 64 && s % 16 == a % 16 && (s / 16 % 2 == 1 <==> a / 16 % 2 == 1 || c % 2 == 1) && (s
            / 32 == 1 <==> a / 32 % 2 == 1 || c / 2 % 2 == 1)
    }) by (bit_vector);
    assert((d & 0x3F) & 0x3F == d % 64) by (bit_vector);
}

/// The min of each of the first four sub-blocks has the lower half of the byte four
/// places on, and above it the two bits that this byte or the upper half of the byte
/// eight places on sets. The min of each later one is the upper half of the byte four
/// places on, and above it two bits of the upper half of the byte of its own place.
pub proof fn q4k_mins_by_their_bits(data: Seq<u8>, at: int, i: int)
    requires
        0 <= i < 8,
    ensures
        ({
            let m = q4k_min(data, at, i);
            let near = data[at + i + 4];
            let far = data[at + i + 8];
            &&& i < 4 ==> m < 64 && m % 16 == near % 16
            &&& i < 4 ==> (m / 16 % 2 == 1 <==> near / 16 % 2 == 1 || far / 16 % 2 == 1)
            &&& i < 4 ==> (m / 32 == 1 <==> near / 32 % 2 == 1 || far / 32 % 2 == 1)
            &&& i >= 4 ==> m == near / 16 + 16 * (data[at + i] / 16 % 4)
        }),
{
    let b = data[at + i + 4];
    let c = data[at + i + 8];
    let a = data[at + i];
    assert({
        let m = ((b & 0x3F) | ((c >> 4) << 4)) & 0x3F;
        m < 64 && m % 16 == b % 16 && (m / 16 % 2 == 1 <==> b / 16 % 2 == 1 || c / 16 % 2 == 1) && (
        m / 32 == 1 <==> b / 32 % 2 == 1 || c / 32 % 2 == 1)
    }) by (bit_vector);
    assert(((b >> 4) | ((a >> 4) << 4)) & 0x3F == b / 16 + 16 * (a / 16 % 4)) by (bit_vector);
}

/// Packing the quants of a super-block gives its bytes back, and its two scales have
/// the values of the f16 numbers in front.
pub proof fn q4k_blocks_pack_back(b: Q4kBlock, data: Seq<u8>, at: int, k: int)
    requires
        is_q4k_block(b, data, at),
        0 <= k < 128,
    ensures
        packed_quants(b.qs@, k) == data[at + 16 + k],
        b.qs@[2 * k] < 16,
        b.qs@[2 * k + 1] < 16,
        data[at + 1] / 4 % 32 != 31 ==> f32_value(b.d.bits as nat) == f16_value(
            (data[at] + 256 * data[at + 1]) as u16,
        ),
        data[at + 3] / 4 % 32 != 31 ==> f32_value(b.dmin.bits as nat) == f16_value(
            (data[at + 2] + 256 * data[at + 3]) as u16,
        ),
{
    assert(b.qs@[2 * k] == nibble(data, at + 16, 2 * k));
    assert(b.qs@[2 * k + 1] == nibble(data, at + 16, 2 * k + 1));
    if data[at + 1] / 4 % 32 != 31 {
        assert(f16_at(data, at) / 1024 == data[at + 1] / 4);
        widening_keeps_the_value(f16_at(data, at));
    }
    if data[at + 3] / 4 % 32 != 31 {
        assert(f16_at(data, at + 2) / 1024 == data[at + 3] / 4);
        widening_keeps_the_value(f16_at(data, at + 2));
    }
}

/// Super-blocks that differ in a packed byte differ in their quants.
pub proof fn q4k_blocks_that_differ_have_other_quants(
    a: Q4kBlock,
    b: Q4kBlock,
    left: Seq<u8>,
    right: Seq<u8>,
    k: int,
)
    requires
        is_q4k_block(a, left, 0),
        is_q4k_block(b, right, 0),
        0 <= k < 128,
        left[16 + k] != right[16 + k],
    ensures
        a.qs@ != b.qs@,
{
    q4k_blocks_pack_back(a, left, 0, k);
    q4k_blocks_pack_back(b, right, 0, k);
}

/// Unpacks the Q4_K super-block at `at`.
pub fn unpack_q4k_block(data: &[u8], at: usize) -> (b: Q4kBlock)
    requires
        at + Q4K_BLOCK <= data@.len(),
    ensures
        is_q4k_block(b, data@, at as int),
        forall|k: int|
            0 <= k < 128 ==> #[trigger] packed_quants(b.qs@, k) == data@[at + 16 + k],
{
    let len: usize = data.len();
    let d: F32 = f16_to_f32(read_f16(data, at));
    let dmin: F32 = f16_to_f32(read_f16(data, at + 2));
    let scales: Vec<(u8, u8)> = unpack_q4k_scales(data, at + 4);
    let mut qs: Vec<u8> = Vec::with_capacity(Q4K_ELEMS);
    let mut i: usize = 0;
    while i < 128
        invariant
            i <= 128,
            at + Q4K_BLOCK <= len == data@.len(),
            qs@.len() == 2 * i,
            forall|k: int| 0 <= k < 2 * i ==> #[trigger] qs@[k] == nibble(data@, at + 16, k),
        decreases 128 - i,
    {
        let byte: u8 = data[at + 16 + i];
        qs.push(byte % 16);
        qs.push(byte / 16);
        i = i + 1;
    }
    let b = Q4kBlock { d, dmin, scales, qs };
    proof {
        assert forall|k: int| 0 <= k < 128 implies #[trigger] packed_quants(b.qs@, k) == data@[at
            + 16 + k] by {
            q4k_blocks_pack_back(b, data@, at as int, k);
        }
    }
    b
}

/// Unpacks a Q4_K row of `n` elements: whole super-blocks, one after the other.
pub fn unpack_q4k_row(data: &[u8], n: usize) -> (blocks: Vec<Q4kBlock>)
    requires
        n / Q4K_ELEMS * Q4K_BLOCK <= data@.len(),
    ensures
        blocks@.len() == n / Q4K_ELEMS,
        forall|b: int|
            0 <= b < blocks@.len() ==> is_q4k_block(
                #[trigger] blocks@[b],
                data@,
                b * Q4K_BLOCK,
            ),
        forall|b: int, k: int|
            0 <= b < blocks@.len() && 0 <= k < 128 ==> #[trigger] packed_quants(
                blocks@[b].qs@,
                k,
            ) == data@[144 * b + 16 + k],
{
    let n_blocks: usize = n / Q4K_ELEMS;
    let len: usize = data.len();
    let mut blocks: Vec<Q4kBlock> = Vec::with_capacity(n_blocks);
    let mut b: usize = 0;
    while b < n_blocks
        invariant
            b <= n_blocks,
            n_blocks * Q4K_BLOCK <= len == data@.len(),
            blocks@.len() == b,
            forall|k: int|
                0 <= k < b ==> is_q4k_block(#[trigger] blocks@[k], data@, k * Q4K_BLOCK),
        decreases n_blocks - b,
    {
        blocks.push(unpack_q4k_block(data, b * Q4K_BLOCK));
        b = b + 1;
    }
    proof {
        assert forall|b: int, k: int|
            0 <= b < blocks@.len() && 0 <= k < 128 implies #[trigger] packed_quants(
            blocks@[b].qs@,
            k,
        ) == data@[144 * b + 16 + k] by {
            q4k_blocks_pack_back(blocks@[b], data@, b * Q4K_BLOCK, k);
        }
    }
    blocks
}

// ── F16 / BF16 / F32 ─────────────────────────────────────────────────────────

/// How many values of `width` bytes are read into a row of `room` values.
pub open spec fn row_values(len: nat, width: nat, room: nat) -> nat {
    if len / width < room {
        len / width
    } else {
        room
    }
}

/// Widens the f16 values of a row; what the data does not reach stays.
pub fn dequant_f16_row(data: &[u8], out: &mut Vec<F32>)
    ensures
        final(out)@.len() == old(out)@.len(),
        forall|i: int|
            0 <= i < old(out)@.len() ==> #[trigger] final(out)@[i].bits == (if i < row_values(
                data@.len(),
                2,
                old(out)@.len(),
            ) {
                widened(f16_at(data@, 2 * i))
            } else {
                old(out)@[i].bits as nat
            }),
        forall|i: int|
            0 <= i < old(out)@.len() && 2 * i + 2 <= data@.len() && data@[2 * i + 1] / 4 % 32 != 31
                ==> f32_value(#[trigger] final(out)@[i].bits as nat) == f16_value(
                (data@[2 * i] + 256 * data@[2 * i + 1]) as u16,
            ),
{
    let len: usize = data.len();
    let ghost start = out@;
    let mut i: usize = 0;
    while i < out.len() && i < len / 2
        invariant
            len == data@.len(),
            out@.len() == start.len(),
            i <= start.len(),
            i <= len / 2,
            forall|k: int|
                0 <= k < i ==> #[trigger] out@[k].bits == widened(f16_at(data@, 2 * k)),
            forall|k: int| i <= k < start.len() ==> #[trigger] out@[k] == start[k],
        decreases start.len() - i,
    {
        out.set(i, f16_to_f32(read_f16(data, 2 * i)));
        i = i + 1;
    }
    proof {
        assert forall|i: int|
            0 <= i < out@.len() && 2 * i + 2 <= data@.len() && data@[2 * i + 1] / 4 % 32
                != 31 implies f32_value(#[trigger] out@[i].bits as nat) == f16_value(
            (data@[2 * i] + 256 * data@[2 * i + 1]) as u16,
        ) by {
            assert(f16_at(data@, 2 * i) / 1024 == data@[2 * i + 1] / 4);
            widening_keeps_the_value(f16_at(data@, 2 * i));
        }
    }
}

/// Widens the BF16 values of a row; what the data does not reach stays.
pub fn dequant_bf16_row(data: &[u8], out: &mut Vec<F32>)
    ensures
        final(out)@.len() == old(out)@.len(),
        forall|i: int|
            0 <= i < old(out)@.len() ==> #[trigger] final(out)@[i].bits == (if i < row_values(
                data@.len(),
                2,
                old(out)@.len(),
            ) {
                f16_at(data@, 2 * i) as nat * 65536
            } else {
                old(out)@[i].bits as nat
            }),
        forall|i: int|
            0 <= i < old(out)@.len() && 2 * i + 2 <= data@.len() ==> #[trigger] final(out)@[i].bits
                == 0x1_0000 * data@[2 * i] + 0x100_0000 * data@[2 * i + 1],
{
    let len: usize = data.len();
    let ghost start = out@;
    let mut i: usize = 0;
    while i < out.len() && i < len / 2
        invariant
            len == data@.len(),
            out@.len() == start.len(),
            i <= start.len(),
            i <= len / 2,
            forall|k: int|
                0 <= k < i ==> #[trigger] out@[k].bits == f16_at(data@, 2 * k) as nat * 65536,
            forall|k: int| i <= k < start.len() ==> #[trigger] out@[k] == start[k],
        decreases start.len() - i,
    {
        out.set(i, bf16_to_f32(read_f16(data, 2 * i)));
        i = i + 1;
    }
}

/// Copies the f32 values of a row; what the data does not reach stays.
pub fn copy_f32_row(data: &[u8], out: &mut Vec<F32>)
    ensures
        final(out)@.len() == old(out)@.len(),
        forall|i: int|
            0 <= i < old(out)@.len() ==> #[trigger] final(out)@[i].bits == (if i < row_values(
                data@.len(),
                4,
                old(out)@.len(),
            ) {
                bytes::le_value(data@.subrange(4 * i, 4 * i + 4))
            } else {
                old(out)@[i].bits as nat
            }),
        forall|i: int|
            0 <= i < old(out)@.len() && 4 * i + 4 <= data@.len() ==> #[trigger] final(out)@[i].bits
                == data@[4 * i] + 0x100 * data@[4 * i + 1] + 0x1_0000 * data@[4 * i + 2]
                + 0x100_0000 * data@[4 * i + 3],
{
    let len: usize = data.len();
    let ghost start = out@;
    let mut i: usize = 0;
    while i < out.len() && i < len / 4
        invariant
            len == data@.len(),
            out@.len() == start.len(),
            i <= start.len(),
            i <= len / 4,
            forall|k: int|
                0 <= k < i ==> #[trigger] out@[k].bits == bytes::le_value(
                    data@.subrange(4 * k, 4 * k + 4),
                ),
            forall|k: int| i <= k < start.len() ==> #[trigger] out@[k] == start[k],
        decreases start.len() - i,
    {
        proof {
            bytes::lemma_pow256_values();
        }
        out.set(i, F32::from_bits(read_le(data, 4 * i, 4) as u32));
        i = i + 1;
    }
    proof {
        assert forall|i: int|
            0 <= i < out@.len() && 4 * i + 4 <= data@.len() implies #[trigger] out@[i].bits
            == data@[4 * i] + 0x100 * data@[4 * i + 1] + 0x1_0000 * data@[4 * i + 2] + 0x100_0000
            * data@[4 * i + 3] by {
            bytes::le_values_spelled_out(data@.subrange(4 * i, 4 * i + 4));
        }
    }
}

// ── Dispatch ──────────────────────────────────────────────────────────────────

/// How the rows of a type are read.
#[derive(Debug, Clone, Copy, PartialEq, Eq, Structural)]
pub enum RowFormat {
    F32,
    F16,
    Bf16,
    Q4,
    Q4k,
    /// Not read: the row is filled with zeros.
    Zeros,
}

/// How a row of a 2-D weight matrix is read, given its type.
pub fn row_format(dtype: GgmlType) -> (f: RowFormat)
    ensures
        f == (match dtype {
            GgmlType::F32 => RowFormat::F32,
            GgmlType::F16 => RowFormat::F16,
            GgmlType::BF16 => RowFormat::Bf16,
            GgmlType::Q4_0 | GgmlType::Q4_1 => RowFormat::Q4,
            GgmlType::Q4K => RowFormat::Q4k,
            _ => RowFormat::Zeros,
        }),
{
    match dtype {
        GgmlType::F32 => RowFormat::F32,
        GgmlType::F16 => RowFormat::F16,
        GgmlType::BF16 => RowFormat::Bf16,
        GgmlType::Q4_0 | GgmlType::Q4_1 => RowFormat::Q4,
        GgmlType::Q4K => RowFormat::Q4k,
        _ => RowFormat::Zeros,
    }
}

/// The bytes of row `r` of a weight matrix with `cols` columns.
pub fn matrix_row(dtype: GgmlType, data: &[u8], r: usize, cols: usize) -> (row: &[u8])
    requires
        dtype.bytes_for(cols as nat) <= u64::MAX,
        (r + 1) * dtype.bytes_for(cols as nat) <= data@.len(),
    ensures
        row@ == data@.subrange(
            (r * dtype.bytes_for(cols as nat)) as int,
            ((r + 1) * dtype.bytes_for(cols as nat)) as int,
        ),
        row@.len() == dtype.bytes_for(cols as nat),
        forall|j: int|
            0 <= j < row@.len() ==> #[trigger] row@[j] == data@[r * dtype.bytes_for(cols as nat)
                + j],
{
    let len: usize = data.len();
    let wide: u64 = dtype.nbytes(cols as u64);
    assert(wide <= len) by (nonlinear_arith)
        requires
            (r + 1) * wide <= len,
    ;
    let row_bytes: usize = wide as usize;
    assert(r * row_bytes + row_bytes == (r + 1) * row_bytes) by (nonlinear_arith);
    vstd::slice::slice_subrange(data, r * row_bytes, r * row_bytes + row_bytes)
}


/// As many values are read as there are bytes and room for, and no fewer.
pub proof fn rows_are_read_as_far_as_they_go(len: nat, width: nat, room: nat)
    requires
        width > 0,
    ensures
        row_values(len, width, room) * width <= len,
        row_values(len, width, room) <= room,
        row_values(len, width, room) == room || (row_values(len, width, room) + 1) * width > len,
{
    let k = len / width;
    assert(k * width <= len && (k + 1) * width > len) by (nonlinear_arith)
        requires
            width > 0,
            k == len / width,
    ;
    assert(room <= k ==> room * width <= k * width) by (nonlinear_arith);
}
} // verus!
