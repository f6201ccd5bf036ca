//! Minimal GGUF file reader.
//!
//! Supports GGUF v1, v2, and v3. Parses metadata key-value pairs and the
//! tensor info table. The reader works on the bytes of the file; tensor data is
//! returned as a raw `Vec<u8>` so the caller controls memory.

use vstd::prelude::*;
use vstd::string::*;
use vstd::utf8::*;
use crate::bytes;
use crate::bytes::read_le;
use crate::scalar::{F32, F64};
use crate::table;
use crate::table::Table;
use crate::text;
use crate::text::{joined, push_decimal, push_hex, text_with_number};

verus! {

/// Magic bytes: ASCII "GGUF" as a little-endian u32.
pub const GGUF_MAGIC: u32 = 0x4655_4747;

/// Default tensor data alignment in bytes.
pub const DEFAULT_ALIGNMENT: u64 = 32;

// ── GGML quantization types ──────────────────────────────────────────────────

#[derive(Debug, Clone, Copy, PartialEq, Eq, Hash, Structural)]
pub enum GgmlType {
    F32,
    F16,
    Q4_0,
    Q4_1,
    Q5_0,
    Q5_1,
    Q8_0,
    Q8_1,
    Q2K,
    Q3K,
    Q4K,
    Q5K,
    Q6K,
    Q8K,
    I8,
    I16,
    I32,
    I64,
    F64,
    BF16,
}

/// The type that a number stands for in a file.
pub open spec fn type_numbered(v: u32) -> Option<GgmlType> {
    match v {
        0 => Some(GgmlType::F32),
        1 => Some(GgmlType::F16),
        2 => Some(GgmlType::Q4_0),
        3 => Some(GgmlType::Q4_1),
        6 => Some(GgmlType::Q5_0),
        7 => Some(GgmlType::Q5_1),
        8 => Some(GgmlType::Q8_0),
        9 => Some(GgmlType::Q8_1),
        10 => Some(GgmlType::Q2K),
        11 => Some(GgmlType::Q3K),
        12 => Some(GgmlType::Q4K),
        13 => Some(GgmlType::Q5K),
        14 => Some(GgmlType::Q6K),
        15 => Some(GgmlType::Q8K),
        24 => Some(GgmlType::I8),
        25 => Some(GgmlType::I16),
        26 => Some(GgmlType::I32),
        27 => Some(GgmlType::I64),
        28 => Some(GgmlType::F64),
        30 => Some(GgmlType::BF16),
        _ => None,
    }
}

/// `a / b`, rounded up.
pub open spec fn ceil_div(a: nat, b: nat) -> nat
    recommends
        b > 0,
{
    if a % b == 0 {
        a / b
    } else {
        a / b + 1
    }
}

impl GgmlType {
    /// Bytes in a block of this type.
    pub open spec fn block_bytes(self) -> u64 {
        match self {
            GgmlType::F32 | GgmlType::I32 => 4,
            GgmlType::F16 | GgmlType::I16 | GgmlType::BF16 => 2,
            GgmlType::Q4_0 => 18,
            GgmlType::Q4_1 => 20,
            GgmlType::Q5_0 => 22,
            GgmlType::Q5_1 => 24,
            GgmlType::Q8_0 => 34,
            GgmlType::Q8_1 => 36,
            GgmlType::Q2K => 84,
            GgmlType::Q3K => 110,
            GgmlType::Q4K => 144,
            GgmlType::Q5K => 176,
            GgmlType::Q6K => 210,
            GgmlType::Q8K => 292,
            GgmlType::I8 => 1,
            GgmlType::I64 | GgmlType::F64 => 8,
        }
    }

    /// Values in a block of this type.
    pub open spec fn block_elems(self) -> u64 {
        match self {
            GgmlType::Q4_0 | GgmlType::Q4_1 | GgmlType::Q5_0 | GgmlType::Q5_1 | GgmlType::Q8_0
            | GgmlType::Q8_1 => 32,
            GgmlType::Q2K | GgmlType::Q3K | GgmlType::Q4K | GgmlType::Q5K | GgmlType::Q6K
            | GgmlType::Q8K => 256,
            _ => 1,
        }
    }

    /// Bytes that `n` values take, in whole blocks.
    pub open spec fn bytes_for(self, n: nat) -> nat {
        ceil_div(n, self.block_elems() as nat) * self.block_bytes() as nat
    }

    pub fn from_u32(v: u32) -> (t: Option<Self>)
        ensures
            t == type_numbered(v),
    {
        match v {
            0 => Some(GgmlType::F32),
            1 => Some(GgmlType::F16),
            2 => Some(GgmlType::Q4_0),
            3 => Some(GgmlType::Q4_1),
            6 => Some(GgmlType::Q5_0),
            7 => Some(GgmlType::Q5_1),
            8 => Some(GgmlType::Q8_0),
            9 => Some(GgmlType::Q8_1),
            10 => Some(GgmlType::Q2K),
            11 => Some(GgmlType::Q3K),
            12 => Some(GgmlType::Q4K),
            13 => Some(GgmlType::Q5K),
            14 => Some(GgmlType::Q6K),
            15 => Some(GgmlType::Q8K),
            24 => Some(GgmlType::I8),
            25 => Some(GgmlType::I16),
            26 => Some(GgmlType::I32),
            27 => Some(GgmlType::I64),
            28 => Some(GgmlType::F64),
            30 => Some(GgmlType::BF16),
            _ => None,
        }
    }

    /// (bytes_per_block, elements_per_block)
    pub fn block_params(self) -> (p: (u64, u64))
        ensures
            p == (self.block_bytes(), self.block_elems()),
    {
        match self {
            GgmlType::F32 | GgmlType::I32 => (4, 1),
            GgmlType::F16 | GgmlType::I16 | GgmlType::BF16 => (2, 1),
            GgmlType::Q4_0 => (18, 32),
            GgmlType::Q4_1 => (20, 32),
            GgmlType::Q5_0 => (22, 32),
            GgmlType::Q5_1 => (24, 32),
            GgmlType::Q8_0 => (34, 32),
            GgmlType::Q8_1 => (36, 32),
            GgmlType::Q2K => (84, 256),
            GgmlType::Q3K => (110, 256),
            GgmlType::Q4K => (144, 256),
            GgmlType::Q5K => (176, 256),
            GgmlType::Q6K => (210, 256),
            GgmlType::Q8K => (292, 256),
            GgmlType::I8 => (1, 1),
            GgmlType::I64 | GgmlType::F64 => (8, 1),
        }
    }

    /// Byte size for `n_elements` values of this type.
    pub fn nbytes(self, n_elements: u64) -> (n: u64)
        requires
            self.bytes_for(n_elements as nat) <= u64::MAX,
        ensures
            n == self.bytes_for(n_elements as nat),
    {
        let (block_bytes, block_elems): (u64, u64) = self.block_params();
        let whole: u64 = n_elements / block_elems;
        proof {
            if n_elements % block_elems != 0 {
                assert(whole < u64::MAX) by (nonlinear_arith)
                    requires
                        whole == n_elements / block_elems,
                        n_elements % block_elems != 0,
                        block_elems == 1 || block_elems == 32 || block_elems == 256,
                ;
            }
        }
        let n_blocks: u64 = if n_elements % block_elems == 0 {
            whole
        } else {
            whole + 1
        };
        n_blocks * block_bytes
    }

    /// Byte size for `n_elements` values of this type, if it can be counted.
    fn checked_nbytes(self, n_elements: u64) -> (n: Option<u64>)
        ensures
            n is Some <==> self.bytes_for(n_elements as nat) <= u64::MAX,
            n is Some ==> n->0 == self.bytes_for(n_elements as nat),
    {
        let (block_bytes, block_elems): (u64, u64) = self.block_params();
        let whole: u128 = (n_elements / block_elems) as u128;
        let n_blocks: u128 = if n_elements % block_elems == 0 {
            whole
        } else {
            whole + 1
        };
        assert(n_blocks * block_bytes <= 0x1_0000_0000_0000_0000 * 292) by (nonlinear_arith)
            requires
                n_blocks <= 0x1_0000_0000_0000_0000,
                block_bytes <= 292,
        ;
        let size: u128 = n_blocks * block_bytes as u128;
        if size <= u64::MAX as u128 {
            Some(size as u64)
        } else {
            None
        }
    }
}

// ── Metadata value ────────────────────────────────────────────────────────────

#[derive(Debug)]
pub enum GgufValue {
    U8(u8),
    I8(i8),
    U16(u16),
    I16(i16),
    U32(u32),
    I32(i32),
    F32(F32),
    Bool(bool),
    String(String),
    Array(Vec<GgufValue>),
    U64(u64),
    I64(i64),
    F64(F64),
}

/// A single value. Arrays of arrays do not occur in files; `Nested` stands for
/// an array where a single value is looked for.
pub enum ScalarModel {
    U8(u8),
    I8(i8),
    U16(u16),
    I16(i16),
    U32(u32),
    I32(i32),
    F32(F32),
    Bool(bool),
    Text(Seq<char>),
    U64(u64),
    I64(i64),
    F64(F64),
    Nested,
}

/// A metadata value: one, or a list.
pub enum ValueModel {
    One(ScalarModel),
    Many(Seq<ScalarModel>),
}

impl View for GgufValue {
    type V = ValueModel;

    open spec fn view(&self) -> ValueModel {
        match *self {
            GgufValue::Array(v) => ValueModel::Many(scalars(v@)),
            _ => ValueModel::One(self.scalar()),
        }
    }
}

/// The values of an array.
pub open spec fn scalars(v: Seq<GgufValue>) -> Seq<ScalarModel> {
    v.map_values(|e: GgufValue| e.scalar())
}

/// Whether two values are the same, arrays in arrays included.
pub open spec fn alike(a: GgufValue, b: GgufValue) -> bool
    decreases a,
{
    match (a, b) {
        (GgufValue::Array(v), GgufValue::Array(w)) => {
            &&& v@.len() == w@.len()
            &&& forall|i: int| 0 <= i < v@.len() ==> alike(#[trigger] v@[i], w@[i])
        },
        _ => a.scalar() == b.scalar(),
    }
}

impl Clone for GgufValue {
    fn clone(&self) -> (r: Self)
        ensures
            alike(*self, r),
            r.scalar() == self.scalar(),
            r@ == self@,
        decreases self,
    {
        match self {
            GgufValue::U8(v) => GgufValue::U8(*v),
            GgufValue::I8(v) => GgufValue::I8(*v),
            GgufValue::U16(v) => GgufValue::U16(*v),
            GgufValue::I16(v) => GgufValue::I16(*v),
            GgufValue::U32(v) => GgufValue::U32(*v),
            GgufValue::I32(v) => GgufValue::I32(*v),
            GgufValue::F32(v) => GgufValue::F32(*v),
            GgufValue::Bool(v) => GgufValue::Bool(*v),
            GgufValue::String(v) => GgufValue::String(v.clone()),
            GgufValue::U64(v) => GgufValue::U64(*v),
            GgufValue::I64(v) => GgufValue::I64(*v),
            GgufValue::F64(v) => GgufValue::F64(*v),
            GgufValue::Array(v) => {
                let mut copy: Vec<GgufValue> = Vec::with_capacity(v.len());
                let mut i: usize = 0;
                assert(scalars(copy@) =~= scalars(v@.take(0)));
                while i < v.len()
                    invariant
                        i <= v@.len(),
                        *self == GgufValue::Array(*v),
                        copy@.len() == i,
                        forall|k: int| 0 <= k < i ==> alike(#[trigger] v@[k], copy@[k]),
                        scalars(copy@) == scalars(v@.take(i as int)),
                    decreases v@.len() - i,
                {
                    let ghost before = copy@;
                    assert(decreases_to!(*self => self->Array_0));
                    assert(decreases_to!(*v => v@));
                    assert(decreases_to!(v@ => v@[i as int]));
                    let e = v[i].clone();
                    copy.push(e);
                    i = i + 1;
                    assert(scalars(copy@) =~= scalars(before).push(e.scalar()));
                    assert(scalars(v@.take(i as int)) =~= scalars(v@.take(i - 1)).push(
                        v@[i - 1].scalar(),
                    ));
                }
                assert(v@.take(i as int) =~= v@);
                GgufValue::Array(copy)
            },
        }
    }
}

impl GgufValue {
    pub open spec fn scalar(self) -> ScalarModel {
        match self {
            GgufValue::U8(v) => ScalarModel::U8(v),
            GgufValue::I8(v) => ScalarModel::I8(v),
            GgufValue::U16(v) => ScalarModel::U16(v),
            GgufValue::I16(v) => ScalarModel::I16(v),
            GgufValue::U32(v) => ScalarModel::U32(v),
            GgufValue::I32(v) => ScalarModel::I32(v),
            GgufValue::F32(v) => ScalarModel::F32(v),
            GgufValue::Bool(v) => ScalarModel::Bool(v),
            GgufValue::String(v) => ScalarModel::Text(v@),
            GgufValue::Array(v) => ScalarModel::Nested,
            GgufValue::U64(v) => ScalarModel::U64(v),
            GgufValue::I64(v) => ScalarModel::I64(v),
            GgufValue::F64(v) => ScalarModel::F64(v),
        }
    }

    pub fn as_u32(&self) -> (r: Option<u32>)
        ensures
            r == (match *self {
                GgufValue::U32(v) => Some(v),
                _ => None,
            }),
    {
        match self {
            GgufValue::U32(v) => Some(*v),
            _ => None,
        }
    }

    pub fn as_u64(&self) -> (r: Option<u64>)
        ensures
            r == (match *self {
                GgufValue::U64(v) => Some(v),
                GgufValue::U32(v) => Some(v as u64),
                _ => None,
            }),
    {
        match self {
            GgufValue::U64(v) => Some(*v),
            GgufValue::U32(v) => Some(*v as u64),
            _ => None,
        }
    }

    pub fn as_i32(&self) -> (r: Option<i32>)
        ensures
            r == (match *self {
                GgufValue::I32(v) => Some(v),
                _ => None,
            }),
    {
        match self {
            GgufValue::I32(v) => Some(*v),
            _ => None,
        }
    }

    pub fn as_f32(&self) -> (r: Option<F32>)
        ensures
            r == (match *self {
                GgufValue::F32(v) => Some(v),
                _ => None,
            }),
    {
        match self {
            GgufValue::F32(v) => Some(*v),
            _ => None,
        }
    }

    pub fn as_str(&self) -> (r: Option<&str>)
        ensures
            match *self {
                GgufValue::String(v) => r is Some && r->0@ == v@,
                _ => r is None,
            },
    {
        match self {
            GgufValue::String(s) => Some(s.as_str()),
            _ => None,
        }
    }

    pub fn as_array(&self) -> (r: Option<&[GgufValue]>)
        ensures
            match *self {
                GgufValue::Array(v) => r is Some && r->0@ == v@,
                _ => r is None,
            },
    {
        match self {
            GgufValue::Array(v) => Some(v.as_slice()),
            _ => None,
        }
    }
}

// ── Tensor info ───────────────────────────────────────────────────────────────

#[derive(Debug, Clone)]
pub struct TensorInfo {
    pub name: String,
    /// Shape in row-major order (innermost dimension last).
    pub shape: Vec<u64>,
    pub dtype: GgmlType,
    /// Byte offset from the start of the data section.
    pub offset: u64,
    /// Total bytes this tensor occupies.
    pub nbytes: u64,
}

/// A tensor's entry.
pub struct TensorModel {
    pub name: Seq<char>,
    pub shape: Seq<u64>,
    pub dtype: GgmlType,
    pub offset: u64,
    pub nbytes: u64,
}

impl View for TensorInfo {
    type V = TensorModel;

    open spec fn view(&self) -> TensorModel {
        TensorModel {
            name: self.name@,
            shape: self.shape@,
            dtype: self.dtype,
            offset: self.offset,
            nbytes: self.nbytes,
        }
    }
}

/// The product of the dimensions.
pub open spec fn elements(shape: Seq<u64>) -> nat
    decreases shape.len(),
{
    if shape.len() == 0 {
        1
    } else {
        elements(shape.drop_last()) * shape.last() as nat
    }
}

/// Whether the dimensions can be multiplied one after the other.
pub open spec fn countable(shape: Seq<u64>) -> bool {
    forall|i: int| 0 <= i <= shape.len() ==> elements(#[trigger] shape.take(i)) <= u64::MAX
}

/// The product of the dimensions, if it can be counted.
fn checked_elements(shape: &Vec<u64>) -> (n: Option<u64>)
    ensures
        n is Some <==> countable(shape@),
        n is Some ==> n->0 == elements(shape@),
{
    let mut n: u64 = 1;
    let mut i: usize = 0;
    assert(shape@.take(0).len() == 0);
    while i < shape.len()
        invariant
            i <= shape@.len(),
            n == elements(shape@.take(i as int)),
            forall|k: int| 0 <= k <= i ==> elements(#[trigger] shape@.take(k)) <= u64::MAX,
        decreases shape@.len() - i,
    {
        assert(shape@.take(i + 1).drop_last() =~= shape@.take(i as int));
        assert(elements(shape@.take(i + 1)) == n as nat * shape@[i as int] as nat);
        match n.checked_mul(shape[i]) {
            Some(m) => {
                n = m;
            },
            None => {
                return None;
            },
        }
        i = i + 1;
    }
    assert(shape@.take(i as int) =~= shape@);
    Some(n)
}

impl TensorInfo {
    pub fn n_elements(&self) -> (n: u64)
        requires
            countable(self.shape@),
        ensures
            n == elements(self.shape@),
    {
        match checked_elements(&self.shape) {
            Some(n) => n,
            None => 0,
        }
    }
}

// ── Error ─────────────────────────────────────────────────────────────────────

#[derive(Debug, Clone)]
pub enum GgufError {
    /// Reading failed, with what the reader said of it.
    Io(String),
    BadMagic(u32),
    UnsupportedVersion(u32),
    UnknownType(u32),
    Malformed(String),
}

/// An error and its text.
pub enum ErrorModel {
    Io(Seq<char>),
    BadMagic(u32),
    UnsupportedVersion(u32),
    UnknownType(u32),
    Malformed(Seq<char>),
}

impl View for GgufError {
    type V = ErrorModel;

    open spec fn view(&self) -> ErrorModel {
        match *self {
            GgufError::Io(s) => ErrorModel::Io(s@),
            GgufError::BadMagic(m) => ErrorModel::BadMagic(m),
            GgufError::UnsupportedVersion(v) => ErrorModel::UnsupportedVersion(v),
            GgufError::UnknownType(t) => ErrorModel::UnknownType(t),
            GgufError::Malformed(s) => ErrorModel::Malformed(s@),
        }
    }
}

impl ErrorModel {
    pub open spec fn text(self) -> Seq<char> {
        match self {
            ErrorModel::Io(e) => "I/O error: "@ + e,
            ErrorModel::BadMagic(m) => "bad magic: 0x"@ + text::hex(m as nat, 8),
            ErrorModel::UnsupportedVersion(v) => "unsupported GGUF version "@ + text::decimal(
                v as nat,
            ),
            ErrorModel::UnknownType(t) => "unknown ggml type "@ + text::decimal(t as nat),
            ErrorModel::Malformed(s) => "malformed GGUF: "@ + s,
        }
    }
}

impl GgufError {
    pub fn to_string(&self) -> (s: String)
        ensures
            s@ == self@.text(),
    {
        match self {
            GgufError::Io(e) => joined("I/O error: ", e.as_str()),
            GgufError::BadMagic(m) => {
                let mut s = String::from_str("bad magic: 0x");
                push_hex(&mut s, *m as u64, 8);
                s
            },
            GgufError::UnsupportedVersion(v) => {
                let mut s = String::from_str("unsupported GGUF version ");
                push_decimal(&mut s, *v as u64);
                s
            },
            GgufError::UnknownType(t) => {
                let mut s = String::from_str("unknown ggml type ");
                push_decimal(&mut s, *t as u64);
                s
            },
            GgufError::Malformed(e) => joined("malformed GGUF: ", e.as_str()),
        }
    }
}

// ── The grammar of a file ─────────────────────────────────────────────────────

/// What was read from some position on, and the position after it.
pub enum Parsed<T> {
    Got(T, nat),
    Failed(ErrorModel),
}

/// The file ends too early.
pub open spec fn cut_short() -> ErrorModel {
    ErrorModel::Io("failed to fill whole buffer"@)
}

/// A little-endian number of `width` bytes.
pub open spec fn number_at(data: Seq<u8>, pos: nat, width: nat) -> Parsed<nat> {
    if pos + width <= data.len() {
        Parsed::Got(
            bytes::le_value(data.subrange(pos as int, (pos + width) as int)),
            pos + width,
        )
    } else {
        Parsed::Failed(cut_short())
    }
}

/// What std says of bytes that are not UTF-8.
pub uninterp spec fn utf8_complaint(bytes: Seq<u8>) -> Seq<char>;

/// A string: its length in 8 bytes, then its UTF-8 bytes.
pub open spec fn text_at(data: Seq<u8>, pos: nat) -> Parsed<Seq<char>> {
    match number_at(data, pos, 8) {
        Parsed::Failed(e) => Parsed::Failed(e),
        Parsed::Got(len, p) => if p + len <= data.len() {
            let body = data.subrange(p as int, (p + len) as int);
            if valid_utf8(body) {
                Parsed::Got(decode_utf8(body), p + len)
            } else {
                Parsed::Failed(
                    ErrorModel::Malformed("invalid UTF-8 string: "@ + utf8_complaint(body)),
                )
            }
        } else {
            Parsed::Failed(cut_short())
        },
    }
}

/// The bytes that a single value takes, by its type; strings tell themselves.
pub open spec fn scalar_width(type_id: u32) -> nat {
    match type_id {
        0 | 1 | 7 => 1,
        2 | 3 => 2,
        4 | 5 | 6 => 4,
        _ => 8,
    }
}

/// The single value of a type that a number stands for.
pub open spec fn scalar_of(type_id: u32, n: nat) -> ScalarModel {
    match type_id {
        0 => ScalarModel::U8(n as u8),
        1 => ScalarModel::I8((n as u8) as i8),
        2 => ScalarModel::U16(n as u16),
        3 => ScalarModel::I16((n as u16) as i16),
        4 => ScalarModel::U32(n as u32),
        5 => ScalarModel::I32((n as u32) as i32),
        6 => ScalarModel::F32(F32 { bits: n as u32 }),
        7 => ScalarModel::Bool(n != 0),
        10 => ScalarModel::U64(n as u64),
        11 => ScalarModel::I64((n as u64) as i64),
        _ => ScalarModel::F64(F64 { bits: n as u64 }),
    }
}

/// A single value of a type.
pub open spec fn scalar_at(data: Seq<u8>, pos: nat, type_id: u32) -> Parsed<ScalarModel> {
    if type_id == 8 {
        match text_at(data, pos) {
            Parsed::Got(s, p) => Parsed::Got(ScalarModel::Text(s), p),
            Parsed::Failed(e) => Parsed::Failed(e),
        }
    } else if type_id == 9 || type_id > 12 {
        Parsed::Failed(ErrorModel::UnknownType(type_id))
    } else {
        match number_at(data, pos, scalar_width(type_id)) {
            Parsed::Got(n, p) => Parsed::Got(scalar_of(type_id, n), p),
            Parsed::Failed(e) => Parsed::Failed(e),
        }
    }
}

/// `count` single values of a type.
pub open spec fn scalars_at(data: Seq<u8>, pos: nat, type_id: u32, count: nat) -> Parsed<
    Seq<ScalarModel>,
>
    decreases count,
{
    if count == 0 {
        Parsed::Got(Seq::empty(), pos)
    } else {
        match scalars_at(data, pos, type_id, (count - 1) as nat) {
            Parsed::Failed(e) => Parsed::Failed(e),
            Parsed::Got(v, p) => match scalar_at(data, p, type_id) {
                Parsed::Failed(e) => Parsed::Failed(e),
                Parsed::Got(x, q) => Parsed::Got(v.push(x), q),
            },
        }
    }
}

/// A value: its type in 4 bytes, then the value. An array gives the type of its
/// elements in 4 bytes and their count in 8.
pub open spec fn value_at(data: Seq<u8>, pos: nat) -> Parsed<ValueModel> {
    match number_at(data, pos, 4) {
        Parsed::Failed(e) => Parsed::Failed(e),
        Parsed::Got(type_id, p) => if type_id == 9 {
            match number_at(data, p, 4) {
                Parsed::Failed(e) => Parsed::Failed(e),
                Parsed::Got(elem_type, q) => match number_at(data, q, 8) {
                    Parsed::Failed(e) => Parsed::Failed(e),
                    Parsed::Got(count, r) => match scalars_at(data, r, elem_type as u32, count) {
                        Parsed::Failed(e) => Parsed::Failed(e),
                        Parsed::Got(v, s) => Parsed::Got(ValueModel::Many(v), s),
                    },
                },
            }
        } else {
            match scalar_at(data, p, type_id as u32) {
                Parsed::Failed(e) => Parsed::Failed(e),
                Parsed::Got(v, q) => Parsed::Got(ValueModel::One(v), q),
            }
        },
    }
}

/// `count` metadata entries, each a name and a value. Of entries with the same
/// name the last one stays.
pub open spec fn metadata_at(data: Seq<u8>, pos: nat, count: nat) -> Parsed<
    Map<Seq<char>, ValueModel>,
>
    decreases count,
{
    if count == 0 {
        Parsed::Got(Map::empty(), pos)
    } else {
        match metadata_at(data, pos, (count - 1) as nat) {
            Parsed::Failed(e) => Parsed::Failed(e),
            Parsed::Got(m, p) => match text_at(data, p) {
                Parsed::Failed(e) => Parsed::Failed(e),
                Parsed::Got(key, q) => match value_at(data, q) {
                    Parsed::Failed(e) => Parsed::Failed(e),
                    Parsed::Got(v, r) => Parsed::Got(m.insert(key, v), r),
                },
            },
        }
    }
}

/// `count` dimensions of 8 bytes.
pub open spec fn shape_at(data: Seq<u8>, pos: nat, count: nat) -> Parsed<Seq<u64>>
    decreases count,
{
    if count == 0 {
        Parsed::Got(Seq::empty(), pos)
    } else {
        match shape_at(data, pos, (count - 1) as nat) {
            Parsed::Failed(e) => Parsed::Failed(e),
            Parsed::Got(v, p) => match number_at(data, p, 8) {
                Parsed::Failed(e) => Parsed::Failed(e),
                Parsed::Got(n, q) => Parsed::Got(v.push(n as u64), q),
            },
        }
    }
}

/// Whether the size of a tensor can be counted.
pub open spec fn sized(shape: Seq<u64>, dtype: GgmlType) -> bool {
    countable(shape) && dtype.bytes_for(elements(shape)) <= u64::MAX
}

/// A tensor entry: name, number of dimensions in 4 bytes, dimensions, type in 4
/// bytes, offset in 8.
pub open spec fn tensor_at(data: Seq<u8>, pos: nat) -> Parsed<TensorModel> {
    match text_at(data, pos) {
        Parsed::Failed(e) => Parsed::Failed(e),
        Parsed::Got(name, p1) => match number_at(data, p1, 4) {
            Parsed::Failed(e) => Parsed::Failed(e),
            Parsed::Got(n_dims, p2) => if n_dims > 4 {
                Parsed::Failed(
                    ErrorModel::Malformed(
                        "tensor "@ + name + ": too many dims ("@ + text::decimal(n_dims) + ")"@,
                    ),
                )
            } else {
                match shape_at(data, p2, n_dims) {
                    Parsed::Failed(e) => Parsed::Failed(e),
                    Parsed::Got(shape, p3) => match number_at(data, p3, 4) {
                        Parsed::Failed(e) => Parsed::Failed(e),
                        Parsed::Got(type_id, p4) => match type_numbered(type_id as u32) {
                            None => Parsed::Failed(ErrorModel::UnknownType(type_id as u32)),
                            Some(dtype) => match number_at(data, p4, 8) {
                                Parsed::Failed(e) => Parsed::Failed(e),
                                Parsed::Got(offset, p5) => if sized(shape, dtype) {
                                    Parsed::Got(
                                        TensorModel {
                                            name,
                                            shape,
                                            dtype,
                                            offset: offset as u64,
                                            nbytes: dtype.bytes_for(elements(shape)) as u64,
                                        },
                                        p5,
                                    )
                                } else {
                                    Parsed::Failed(
                                        ErrorModel::Malformed(
                                            "tensor "@ + name + ": too many bytes"@,
                                        ),
                                    )
                                },
                            },
                        },
                    },
                }
            },
        },
    }
}

/// `count` tensor entries. Of entries with the same name the last one stays.
pub open spec fn tensors_at(data: Seq<u8>, pos: nat, count: nat) -> Parsed<
    Map<Seq<char>, TensorModel>,
>
    decreases count,
{
    if count == 0 {
        Parsed::Got(Map::empty(), pos)
    } else {
        match tensors_at(data, pos, (count - 1) as nat) {
            Parsed::Failed(e) => Parsed::Failed(e),
            Parsed::Got(m, p) => match tensor_at(data, p) {
                Parsed::Failed(e) => Parsed::Failed(e),
                Parsed::Got(t, q) => Parsed::Got(m.insert(t.name, t), q),
            },
        }
    }
}

/// The alignment that the metadata asks for.
pub open spec fn alignment_of(m: Map<Seq<char>, ValueModel>) -> u64 {
    if m.contains_key("general.alignment"@) {
        match m["general.alignment"@] {
            ValueModel::One(ScalarModel::U64(v)) => v,
            ValueModel::One(ScalarModel::U32(v)) => v as u64,
            _ => DEFAULT_ALIGNMENT,
        }
    } else {
        DEFAULT_ALIGNMENT
    }
}

/// `pos` rounded up to a multiple of the alignment.
pub open spec fn aligned(pos: nat, alignment: nat) -> nat {
    ceil_div(pos, alignment) * alignment
}

/// The contents of a file.
pub struct FileModel {
    pub version: u32,
    pub metadata: Map<Seq<char>, ValueModel>,
    pub tensors: Map<Seq<char>, TensorModel>,
    pub data_offset: u64,
}

/// A file: magic and version in 4 bytes each, the numbers of tensors and of
/// metadata entries in 8 bytes each, the metadata, the tensor table. The data
/// starts at the next aligned position, which is where the parse ends.
pub open spec fn file_at(data: Seq<u8>) -> Parsed<FileModel> {
    match number_at(data, 0, 4) {
        Parsed::Failed(e) => Parsed::Failed(e),
        Parsed::Got(magic, p1) => if magic != GGUF_MAGIC {
            Parsed::Failed(ErrorModel::BadMagic(magic as u32))
        } else {
            match number_at(data, p1, 4) {
                Parsed::Failed(e) => Parsed::Failed(e),
                Parsed::Got(version, p2) => if version == 0 || version > 3 {
                    Parsed::Failed(ErrorModel::UnsupportedVersion(version as u32))
                } else {
                    match number_at(data, p2, 8) {
                        Parsed::Failed(e) => Parsed::Failed(e),
                        Parsed::Got(tensor_count, p3) => match number_at(data, p3, 8) {
                            Parsed::Failed(e) => Parsed::Failed(e),
                            Parsed::Got(kv_count, p4) => body_at(
                                data,
                                version as u32,
                                tensor_count,
                                kv_count,
                                p4,
                            ),
                        },
                    }
                },
            }
        },
    }
}

/// What follows the counts.
pub open spec fn body_at(
    data: Seq<u8>,
    version: u32,
    tensor_count: nat,
    kv_count: nat,
    pos: nat,
) -> Parsed<FileModel> {
    match metadata_at(data, pos, kv_count) {
        Parsed::Failed(e) => Parsed::Failed(e),
        Parsed::Got(metadata, p) => match tensors_at(data, p, tensor_count) {
            Parsed::Failed(e) => Parsed::Failed(e),
            Parsed::Got(tensors, q) => {
                let alignment = alignment_of(metadata);
                if alignment == 0 || aligned(q, alignment as nat) > u64::MAX {
                    Parsed::Failed(ErrorModel::Malformed("bad alignment"@))
                } else {
                    Parsed::Got(
                        FileModel {
                            version,
                            metadata,
                            tensors,
                            data_offset: aligned(q, alignment as nat) as u64,
                        },
                        q,
                    )
                }
            },
        },
    }
}

// ── Low-level readers ─────────────────────────────────────────────────────────

/// The error of a file that ends too early.
fn short_read() -> (e: GgufError)
    ensures
        e@ == cut_short(),
{
    GgufError::Io(String::from_str("failed to fill whole buffer"))
}

/// Reads a little-endian number of `width` bytes.
fn read_number(data: &[u8], pos: usize, width: usize) -> (r: Result<(u64, usize), GgufError>)
    requires
        pos <= data@.len(),
        width <= 8,
    ensures
        match number_at(data@, pos as nat, width as nat) {
            Parsed::Got(n, p) => r is Ok && (r->Ok_0).0 == n && (r->Ok_0).1 == p,
            Parsed::Failed(e) => r is Err && r->Err_0@ == e,
        },
        r is Ok ==> (r->Ok_0).1 <= data@.len() && (r->Ok_0).0 < bytes::pow256(width as nat),
{
    if data.len() - pos < width {
        return Err(short_read());
    }
    let n: u64 = read_le(data, pos, width);
    Ok((n, pos + width))
}

/// `String::from_utf8` gives the text that the bytes encode, or, where they are
/// not UTF-8, an error. The text of the error depends on the bytes alone.
#[verifier::external_body]
fn utf8_text(bytes: Vec<u8>) -> (r: Result<String, String>)
    ensures
        r is Ok <==> valid_utf8(bytes@),
        r is Ok ==> r->Ok_0@ == decode_utf8(bytes@),
        r is Err ==> r->Err_0@ == utf8_complaint(bytes@),
{
    String::from_utf8(bytes).map_err(|e| e.to_string())
}

/// Copies the bytes from `start` to `end`.
fn copied(data: &[u8], start: usize, end: usize) -> (v: Vec<u8>)
    requires
        start <= end <= data@.len(),
    ensures
        v@ == data@.subrange(start as int, end as int),
{
    vstd::slice::slice_to_vec(vstd::slice::slice_subrange(data, start, end))
}

fn read_string(data: &[u8], pos: usize) -> (r: Result<(String, usize), GgufError>)
    requires
        pos <= data@.len(),
    ensures
        match text_at(data@, pos as nat) {
            Parsed::Got(s, p) => r is Ok && (r->Ok_0).0@ == s && (r->Ok_0).1 == p,
            Parsed::Failed(e) => r is Err && r->Err_0@ == e,
        },
        r is Ok ==> (r->Ok_0).1 <= data@.len(),
{
    let (len, at): (u64, usize) = match read_number(data, pos, 8) {
        Ok(x) => x,
        Err(e) => {
            return Err(e);
        },
    };
    if ((data.len() - at) as u64) < len {
        return Err(short_read());
    }
    let end: usize = at + len as usize;
    match utf8_text(copied(data, at, end)) {
        Ok(s) => Ok((s, end)),
        Err(complaint) => Err(
            GgufError::Malformed(joined("invalid UTF-8 string: ", complaint.as_str())),
        ),
    }
}

/// Reads a single value of a type.
fn read_array_elem(data: &[u8], pos: usize, type_id: u32) -> (r: Result<
    (GgufValue, usize),
    GgufError,
>)
    requires
        pos <= data@.len(),
    ensures
        match scalar_at(data@, pos as nat, type_id) {
            Parsed::Got(v, p) => r is Ok && (r->Ok_0).0.scalar() == v && (r->Ok_0).1 == p && (
            r->Ok_0).0@ == ValueModel::One(v),
            Parsed::Failed(e) => r is Err && r->Err_0@ == e,
        },
        r is Ok ==> (r->Ok_0).1 <= data@.len(),
{
    if type_id == 8 {
        return match read_string(data, pos) {
            Ok((s, p)) => Ok((GgufValue::String(s), p)),
            Err(e) => Err(e),
        };
    }
    if type_id == 9 || type_id > 12 {
        return Err(GgufError::UnknownType(type_id));
    }
    let width: usize = match type_id {
        0 | 1 | 7 => 1,
        2 | 3 => 2,
        4 | 5 | 6 => 4,
        _ => 8,
    };
    let (n, p): (u64, usize) = match read_number(data, pos, width) {
        Ok(x) => x,
        Err(e) => {
            return Err(e);
        },
    };
    let value = match type_id {
        0 => GgufValue::U8(n as u8),
        1 => GgufValue::I8(n as u8 as i8),
        2 => GgufValue::U16(n as u16),
        3 => GgufValue::I16(n as u16 as i16),
        4 => GgufValue::U32(n as u32),
        5 => GgufValue::I32(n as u32 as i32),
        6 => GgufValue::F32(F32::from_bits(n as u32)),
        7 => GgufValue::Bool(n != 0),
        10 => GgufValue::U64(n),
        11 => GgufValue::I64(n as i64),
        _ => GgufValue::F64(F64 { bits: n }),
    };
    Ok((value, p))
}

proof fn lemma_scalars_fail(data: Seq<u8>, pos: nat, type_id: u32, i: nat, count: nat)
    requires
        i <= count,
        scalars_at(data, pos, type_id, i) is Failed,
    ensures
        scalars_at(data, pos, type_id, count) == scalars_at(data, pos, type_id, i),
    decreases count,
{
    if i < count {
        lemma_scalars_fail(data, pos, type_id, i, (count - 1) as nat);
    }
}

fn read_array(data: &[u8], pos: usize, type_id: u32, count: u64) -> (r: Result<
    (Vec<GgufValue>, usize),
    GgufError,
>)
    requires
        pos <= data@.len(),
    ensures
        match scalars_at(data@, pos as nat, type_id, count as nat) {
            Parsed::Got(v, p) => r is Ok && scalars((r->Ok_0).0@) == v && (r->Ok_0).1 == p,
            Parsed::Failed(e) => r is Err && r->Err_0@ == e,
        },
        r is Ok ==> (r->Ok_0).1 <= data@.len(),
{
    let mut values: Vec<GgufValue> = Vec::new();
    let mut at: usize = pos;
    let mut i: u64 = 0;
    assert(scalars(values@) =~= Seq::<ScalarModel>::empty());
    while i < count
        invariant
            i <= count,
            at <= data@.len(),
            scalars_at(data@, pos as nat, type_id, i as nat) == Parsed::Got(
                scalars(values@),
                at as nat,
            ),
        decreases count - i,
    {
        match read_array_elem(data, at, type_id) {
            Err(e) => {
                proof {
                    lemma_scalars_fail(
                        data@,
                        pos as nat,
                        type_id,
                        (i + 1) as nat,
                        count as nat,
                    );
                }
                return Err(e);
            },
            Ok((v, p)) => {
                let ghost before = values@;
                values.push(v);
                assert(scalars(values@) =~= scalars(before).push(v.scalar()));
                at = p;
            },
        }
        i = i + 1;
    }
    Ok((values, at))
}

fn read_value(data: &[u8], pos: usize) -> (r: Result<(GgufValue, usize), GgufError>)
    requires
        pos <= data@.len(),
    ensures
        match value_at(data@, pos as nat) {
            Parsed::Got(v, p) => r is Ok && (r->Ok_0).0@ == v && (r->Ok_0).1 == p,
            Parsed::Failed(e) => r is Err && r->Err_0@ == e,
        },
        r is Ok ==> (r->Ok_0).1 <= data@.len(),
{
    proof {
        bytes::lemma_pow256_values();
    }
    let (type_id, p): (u64, usize) = match read_number(data, pos, 4) {
        Ok(x) => x,
        Err(e) => {
            return Err(e);
        },
    };
    if type_id != 9 {
        return read_array_elem(data, p, type_id as u32);
    }
    let (elem_type, q): (u64, usize) = match read_number(data, p, 4) {
        Ok(x) => x,
        Err(e) => {
            return Err(e);
        },
    };
    let (count, s): (u64, usize) = match read_number(data, q, 8) {
        Ok(x) => x,
        Err(e) => {
            return Err(e);
        },
    };
    match read_array(data, s, elem_type as u32, count) {
        Ok((values, t)) => Ok((GgufValue::Array(values), t)),
        Err(e) => Err(e),
    }
}

proof fn lemma_metadata_fail(data: Seq<u8>, pos: nat, i: nat, count: nat)
    requires
        i <= count,
        metadata_at(data, pos, i) is Failed,
    ensures
        metadata_at(data, pos, count) == metadata_at(data, pos, i),
    decreases count,
{
    if i < count {
        lemma_metadata_fail(data, pos, i, (count - 1) as nat);
    }
}

/// The values of a metadata table.
pub open spec fn metadata_model(m: Map<Seq<char>, GgufValue>) -> Map<Seq<char>, ValueModel> {
    m.map_values(|v: GgufValue| v@)
}

fn read_metadata(data: &[u8], pos: usize, count: u64) -> (r: Result<
    (Table<GgufValue>, usize),
    GgufError,
>)
    requires
        pos <= data@.len(),
    ensures
        match metadata_at(data@, pos as nat, count as nat) {
            Parsed::Got(m, p) => r is Ok && metadata_model((r->Ok_0).0@) == m && (r->Ok_0).1 == p,
            Parsed::Failed(e) => r is Err && r->Err_0@ == e,
        },
        r is Ok ==> (r->Ok_0).1 <= data@.len(),
{
    let mut metadata: Table<GgufValue> = Table::new();
    let mut at: usize = pos;
    let mut i: u64 = 0;
    assert(metadata_model(metadata@) =~= Map::<Seq<char>, ValueModel>::empty());
    while i < count
        invariant
            i <= count,
            at <= data@.len(),
            metadata_at(data@, pos as nat, i as nat) == Parsed::Got(
                metadata_model(metadata@),
                at as nat,
            ),
        decreases count - i,
    {
        let (key, p): (String, usize) = match read_string(data, at) {
            Ok(x) => x,
            Err(e) => {
                proof {
                    lemma_metadata_fail(data@, pos as nat, (i + 1) as nat, count as nat);
                }
                return Err(e);
            },
        };
        let (value, q): (GgufValue, usize) = match read_value(data, p) {
            Ok(x) => x,
            Err(e) => {
                proof {
                    lemma_metadata_fail(data@, pos as nat, (i + 1) as nat, count as nat);
                }
                return Err(e);
            },
        };
        let ghost before = metadata@;
        metadata.insert(key, value);
        assert(metadata_model(metadata@) =~= metadata_model(before).insert(key@, value@));
        at = q;
        i = i + 1;
    }
    Ok((metadata, at))
}

proof fn lemma_shape_fail(data: Seq<u8>, pos: nat, i: nat, count: nat)
    requires
        i <= count,
        shape_at(data, pos, i) is Failed,
    ensures
        shape_at(data, pos, count) == shape_at(data, pos, i),
    decreases count,
{
    if i < count {
        lemma_shape_fail(data, pos, i, (count - 1) as nat);
    }
}

fn read_shape(data: &[u8], pos: usize, count: u64) -> (r: Result<(Vec<u64>, usize), GgufError>)
    requires
        pos <= data@.len(),
    ensures
        match shape_at(data@, pos as nat, count as nat) {
            Parsed::Got(v, p) => r is Ok && (r->Ok_0).0@ == v && (r->Ok_0).1 == p,
            Parsed::Failed(e) => r is Err && r->Err_0@ == e,
        },
        r is Ok ==> (r->Ok_0).1 <= data@.len(),
{
    let mut shape: Vec<u64> = Vec::new();
    let mut at: usize = pos;
    let mut i: u64 = 0;
    while i < count
        invariant
            i <= count,
            at <= data@.len(),
            shape_at(data@, pos as nat, i as nat) == Parsed::Got(shape@, at as nat),
        decreases count - i,
    {
        match read_number(data, at, 8) {
            Err(e) => {
                proof {
                    lemma_shape_fail(data@, pos as nat, (i + 1) as nat, count as nat);
                }
                return Err(e);
            },
            Ok((n, p)) => {
                shape.push(n);
                at = p;
            },
        }
        i = i + 1;
    }
    Ok((shape, at))
}

fn read_tensor_info(data: &[u8], pos: usize) -> (r: Result<(TensorInfo, usize), GgufError>)
    requires
        pos <= data@.len(),
    ensures
        match tensor_at(data@, pos as nat) {
            Parsed::Got(t, p) => r is Ok && (r->Ok_0).0@ == t && (r->Ok_0).1 == p,
            Parsed::Failed(e) => r is Err && r->Err_0@ == e,
        },
        r is Ok ==> (r->Ok_0).1 <= data@.len(),
{
    proof {
        bytes::lemma_pow256_values();
    }
    let (name, p1): (String, usize) = match read_string(data, pos) {
        Ok(x) => x,
        Err(e) => {
            return Err(e);
        },
    };
    let (n_dims, p2): (u64, usize) = match read_number(data, p1, 4) {
        Ok(x) => x,
        Err(e) => {
            return Err(e);
        },
    };
    if n_dims > 4 {
        let head = joined("tensor ", name.as_str());
        let tail = text_with_number(": too many dims (", n_dims, ")");
        let complaint = joined(head.as_str(), tail.as_str());
        assert(complaint@ =~= "tensor "@ + name@ + ": too many dims ("@ + text::decimal(
            n_dims as nat,
        ) + ")"@);
        return Err(GgufError::Malformed(complaint));
    }
    let (shape, p3): (Vec<u64>, usize) = match read_shape(data, p2, n_dims) {
        Ok(x) => x,
        Err(e) => {
            return Err(e);
        },
    };
    let (type_id, p4): (u64, usize) = match read_number(data, p3, 4) {
        Ok(x) => x,
        Err(e) => {
            return Err(e);
        },
    };
    let dtype: GgmlType = match GgmlType::from_u32(type_id as u32) {
        Some(t) => t,
        None => {
            return Err(GgufError::UnknownType(type_id as u32));
        },
    };
    let (offset, p5): (u64, usize) = match read_number(data, p4, 8) {
        Ok(x) => x,
        Err(e) => {
            return Err(e);
        },
    };
    let nbytes: Option<u64> = match checked_elements(&shape) {
        Some(n) => dtype.checked_nbytes(n),
        None => None,
    };
    match nbytes {
        Some(nbytes) => Ok((TensorInfo { name, shape, dtype, offset, nbytes }, p5)),
        None => {
            let head = joined("tensor ", name.as_str());
            Err(GgufError::Malformed(joined(head.as_str(), ": too many bytes")))
        },
    }
}

proof fn lemma_tensors_fail(data: Seq<u8>, pos: nat, i: nat, count: nat)
    requires
        i <= count,
        tensors_at(data, pos, i) is Failed,
    ensures
        tensors_at(data, pos, count) == tensors_at(data, pos, i),
    decreases count,
{
    if i < count {
        lemma_tensors_fail(data, pos, i, (count - 1) as nat);
    }
}

/// The entries of a tensor table.
pub open spec fn tensors_model(m: Map<Seq<char>, TensorInfo>) -> Map<Seq<char>, TensorModel> {
    m.map_values(|t: TensorInfo| t@)
}

fn read_tensor_table(data: &[u8], pos: usize, count: u64) -> (r: Result<
    (Table<TensorInfo>, usize),
    GgufError,
>)
    requires
        pos <= data@.len(),
    ensures
        match tensors_at(data@, pos as nat, count as nat) {
            Parsed::Got(m, p) => r is Ok && tensors_model((r->Ok_0).0@) == m && (r->Ok_0).1 == p,
            Parsed::Failed(e) => r is Err && r->Err_0@ == e,
        },
        r is Ok ==> (r->Ok_0).1 <= data@.len(),
{
    let mut tensors: Table<TensorInfo> = Table::new();
    let mut at: usize = pos;
    let mut i: u64 = 0;
    assert(tensors_model(tensors@) =~= Map::<Seq<char>, TensorModel>::empty());
    while i < count
        invariant
            i <= count,
            at <= data@.len(),
            tensors_at(data@, pos as nat, i as nat) == Parsed::Got(
                tensors_model(tensors@),
                at as nat,
            ),
        decreases count - i,
    {
        let (info, p): (TensorInfo, usize) = match read_tensor_info(data, at) {
            Ok(x) => x,
            Err(e) => {
                proof {
                    lemma_tensors_fail(data@, pos as nat, (i + 1) as nat, count as nat);
                }
                return Err(e);
            },
        };
        let ghost before = tensors@;
        tensors.insert(info.name.clone(), info);
        assert(tensors_model(tensors@) =~= tensors_model(before).insert(info.name@, info@));
        at = p;
        i = i + 1;
    }
    Ok((tensors, at))
}

// ── GgufFile ──────────────────────────────────────────────────────────────────

pub struct GgufFile {
    pub version: u32,
    pub metadata: Table<GgufValue>,
    pub tensors: Table<TensorInfo>,
    /// Absolute byte position in the source file where tensor data starts.
    pub data_offset: u64,
}

impl View for GgufFile {
    type V = FileModel;

    open spec fn view(&self) -> FileModel {
        FileModel {
            version: self.version,
            metadata: metadata_model(self.metadata@),
            tensors: tensors_model(self.tensors@),
            data_offset: self.data_offset,
        }
    }
}

/// `n` bytes from `start` on, or the error of a file that ends before.
pub open spec fn section(data: Seq<u8>, start: nat, n: nat) -> Result<Seq<u8>, ErrorModel> {
    if n == 0 {
        Ok(Seq::empty())
    } else if start + n <= data.len() {
        Ok(data.subrange(start as int, (start + n) as int))
    } else {
        Err(cut_short())
    }
}

/// Whether `end` is where the last tensor ends: zero if there is none.
pub open spec fn is_data_len(tensors: Map<Seq<char>, TensorModel>, end: nat) -> bool {
    &&& forall|k: Seq<char>| #[trigger]
        tensors.contains_key(k) ==> tensors[k].offset + tensors[k].nbytes <= end
    &&& end == 0 || exists|k: Seq<char>| #[trigger]
        tensors.contains_key(k) && tensors[k].offset + tensors[k].nbytes == end
}

fn read_section(data: &[u8], start: u128, n: u128) -> (r: Result<Vec<u8>, GgufError>)
    requires
        start + n <= u128::MAX,
    ensures
        match section(data@, start as nat, n as nat) {
            Ok(s) => r is Ok && r->Ok_0@ == s,
            Err(e) => r is Err && r->Err_0@ == e,
        },
{
    if n == 0 {
        let v: Vec<u8> = Vec::new();
        assert(v@ =~= Seq::<u8>::empty());
        return Ok(v);
    }
    if start + n > data.len() as u128 {
        return Err(short_read());
    }
    Ok(copied(data, start as usize, (start + n) as usize))
}

impl GgufFile {
    /// Parses the bytes of a file.
    pub fn read(data: &[u8]) -> (r: Result<Self, GgufError>)
        ensures
            match file_at(data@) {
                Parsed::Got(f, p) => r is Ok && r->Ok_0@ == f,
                Parsed::Failed(e) => r is Err && r->Err_0@ == e,
            },
    {
        proof {
            bytes::lemma_pow256_values();
        }
        let (magic, p1): (u64, usize) = match read_number(data, 0, 4) {
            Ok(x) => x,
            Err(e) => {
                return Err(e);
            },
        };
        if magic != GGUF_MAGIC as u64 {
            return Err(GgufError::BadMagic(magic as u32));
        }
        let (version, p2): (u64, usize) = match read_number(data, p1, 4) {
            Ok(x) => x,
            Err(e) => {
                return Err(e);
            },
        };
        if version == 0 || version > 3 {
            return Err(GgufError::UnsupportedVersion(version as u32));
        }
        let (tensor_count, p3): (u64, usize) = match read_number(data, p2, 8) {
            Ok(x) => x,
            Err(e) => {
                return Err(e);
            },
        };
        let (kv_count, p4): (u64, usize) = match read_number(data, p3, 8) {
            Ok(x) => x,
            Err(e) => {
                return Err(e);
            },
        };
        let (metadata, p5): (Table<GgufValue>, usize) = match read_metadata(data, p4, kv_count) {
            Ok(x) => x,
            Err(e) => {
                return Err(e);
            },
        };
        let (tensors, p6): (Table<TensorInfo>, usize) = match read_tensor_table(
            data,
            p5,
            tensor_count,
        ) {
            Ok(x) => x,
            Err(e) => {
                return Err(e);
            },
        };
        let alignment: u64 = match metadata.get("general.alignment") {
            Some(v) => match v.as_u64() {
                Some(a) => a,
                None => DEFAULT_ALIGNMENT,
            },
            None => DEFAULT_ALIGNMENT,
        };
        assert(alignment == alignment_of(metadata_model(metadata@)));
        if alignment == 0 {
            return Err(GgufError::Malformed(String::from_str("bad alignment")));
        }
        let pos: u128 = p6 as u128;
        let wide: u128 = alignment as u128;
        let blocks: u128 = if pos % wide == 0 {
            pos / wide
        } else {
            pos / wide + 1
        };
        assert(blocks * wide <= pos + wide) by (nonlinear_arith)
            requires
                wide > 0,
                blocks == pos / wide || (blocks == pos / wide + 1),
        ;
        let start: u128 = blocks * wide;
        if start > u64::MAX as u128 {
            return Err(GgufError::Malformed(String::from_str("bad alignment")));
        }
        Ok(GgufFile { version: version as u32, metadata, tensors, data_offset: start as u64 })
    }

    /// The raw bytes of a named tensor, out of the bytes of the file.
    pub fn read_tensor(&self, data: &[u8], name: &str) -> (r: Result<Vec<u8>, GgufError>)
        ensures
            if self@.tensors.contains_key(name@) {
                let t = self@.tensors[name@];
                match section(data@, (self.data_offset + t.offset) as nat, t.nbytes as nat) {
                    Ok(s) => r is Ok && r->Ok_0@ == s,
                    Err(e) => r is Err && r->Err_0@ == e,
                }
            } else {
                r is Err && r->Err_0@ == ErrorModel::Malformed("tensor not found: "@ + name@)
            },
    {
        match self.tensors.get(name) {
            None => Err(GgufError::Malformed(joined("tensor not found: ", name))),
            Some(info) => read_section(
                data,
                self.data_offset as u128 + info.offset as u128,
                info.nbytes as u128,
            ),
        }
    }

    /// All tensor data as a single contiguous buffer, out of the bytes of the
    /// file.
    pub fn read_all_tensors(&self, data: &[u8]) -> (r: Result<Vec<u8>, GgufError>)
        ensures
            exists|end: nat| #[trigger]
                is_data_len(self@.tensors, end) && match section(
                    data@,
                    self.data_offset as nat,
                    end,
                ) {
                    Ok(s) => r is Ok && r->Ok_0@ == s,
                    Err(e) => r is Err && r->Err_0@ == e,
                },
    {
        let end: u128 = self.data_len();
        assert(is_data_len(self@.tensors, end as nat));
        read_section(data, self.data_offset as u128, end)
    }

    /// Where the last tensor ends, counted from the start of the data.
    fn data_len(&self) -> (end: u128)
        ensures
            is_data_len(self@.tensors, end as nat),
            end <= 2 * u64::MAX,
    {
        let mut end: u128 = 0;
        let n: usize = self.tensors.len();
        let mut i: usize = 0;
        let ghost listed = self.tensors.listed();
        while i < n
            invariant
                i <= n == listed.len(),
                table::lists_all(listed, self.tensors@),
                listed == self.tensors.listed(),
                end <= 2 * u64::MAX,
                forall|k: int|
                    0 <= k < i ==> (#[trigger] listed[k]).1.offset + listed[k].1.nbytes <= end,
                end == 0 || exists|k: Seq<char>| #[trigger]
                    self.tensors@.contains_key(k) && self.tensors@[k].offset
                        + self.tensors@[k].nbytes == end,
            decreases n - i,
        {
            let (key, info): (&str, &TensorInfo) = self.tensors.entry(i);
            let stop: u128 = info.offset as u128 + info.nbytes as u128;
            if stop > end {
                end = stop;
                assert(self.tensors@.contains_key(key@));
            }
            i = i + 1;
        }
        proof {
            let m = self@.tensors;
            assert forall|k: Seq<char>| #[trigger] m.contains_key(k) implies m[k].offset
                + m[k].nbytes <= end by {
                assert(self.tensors@.contains_key(k));
                let j = choose|j: int|
                    0 <= j < listed.len() && #[trigger] listed[j] == (k, self.tensors@[k]);
                assert(listed[j].1.offset + listed[j].1.nbytes <= end);
            }
            if end != 0 {
                let k = choose|k: Seq<char>| #[trigger]
                    self.tensors@.contains_key(k) && self.tensors@[k].offset
                        + self.tensors@[k].nbytes == end;
                assert(m.contains_key(k));
            }
        }
        end
    }
}

// ── Laws ──────────────────────────────────────────────────────────────────────

/// There is one place where the last tensor ends.
pub proof fn data_len_is_unique(tensors: Map<Seq<char>, TensorModel>, a: nat, b: nat)
    requires
        is_data_len(tensors, a),
        is_data_len(tensors, b),
    ensures
        a == b,
{
}

/// Every tensor that a parsed file lists stands under its own name, has at most
/// four dimensions, and takes as many bytes as its shape and type ask for.
pub proof fn listed_tensors_are_sized(data: Seq<u8>, pos: nat, count: nat)
    ensures
        tensors_at(data, pos, count) matches Parsed::Got(m, p) ==> forall|k: Seq<char>| #[trigger]
            m.contains_key(k) ==> m[k].name == k && m[k].shape.len() <= 4 && m[k].nbytes
                == m[k].dtype.bytes_for(elements(m[k].shape)),
    decreases count,
{
    if count > 0 {
        listed_tensors_are_sized(data, pos, (count - 1) as nat);
        if let Parsed::Got(m, p) = tensors_at(data, pos, (count - 1) as nat) {
            if let Parsed::Got(name, p1) = text_at(data, p) {
                if let Parsed::Got(n_dims, p2) = number_at(data, p1, 4) {
                    lemma_shape_len(data, p2, n_dims);
                }
            }
        }
    }
}

proof fn lemma_shape_len(data: Seq<u8>, pos: nat, count: nat)
    ensures
        shape_at(data, pos, count) matches Parsed::Got(v, p) ==> v.len() == count,
    decreases count,
{
    if count > 0 {
        lemma_shape_len(data, pos, (count - 1) as nat);
    }
}

/// The data of a parsed file starts at the first aligned position after the
/// tensor table.
pub proof fn data_starts_aligned(data: Seq<u8>)
    ensures
        file_at(data) matches Parsed::Got(f, p) ==> {
            let alignment = alignment_of(f.metadata);
            &&& alignment > 0
            &&& f.data_offset % alignment == 0
            &&& p <= f.data_offset < p + alignment
        },
{
    if let Parsed::Got(f, p) = file_at(data) {
        let a = alignment_of(f.metadata) as nat;
        lemma_aligned(p, a);
    }
}

proof fn lemma_aligned(pos: nat, a: nat)
    requires
        a > 0,
    ensures
        aligned(pos, a) % a == 0,
        pos <= aligned(pos, a) < pos + a,
{
    let c = ceil_div(pos, a);
    vstd::arithmetic::div_mod::lemma_fundamental_div_mod(pos as int, a as int);
    vstd::arithmetic::div_mod::lemma_mod_multiples_basic(c as int, a as int);
    let q = pos as int / a as int;
    assert(a * q == q * a) by (nonlinear_arith);
    assert((q + 1) * a == q * a + a) by (nonlinear_arith);
}

/// A tensor read by itself is the stretch of the whole data that its entry
/// describes.
pub proof fn tensors_lie_in_the_whole(
    data: Seq<u8>,
    start: nat,
    tensors: Map<Seq<char>, TensorModel>,
    end: nat,
    name: Seq<char>,
)
    requires
        is_data_len(tensors, end),
        tensors.contains_key(name),
        section(data, start, end) is Ok,
    ensures
        ({
            let t = tensors[name];
            section(data, start + t.offset as nat, t.nbytes as nat) == Ok::<Seq<u8>, ErrorModel>(
                section(data, start, end)->Ok_0.subrange(
                    t.offset as int,
                    t.offset + t.nbytes,
                ),
            )
        }),
{
    let t = tensors[name];
    let whole = section(data, start, end)->Ok_0;
    let part = whole.subrange(t.offset as int, t.offset + t.nbytes);
    if t.nbytes == 0 {
        assert(part =~= Seq::<u8>::empty());
    } else {
        assert(part =~= data.subrange(
            start + t.offset,
            start + t.offset + t.nbytes,
        ));
    }
}

// ── The format, as it is written ─────────────────────────────────────────────

/// Whether some bytes stand at a place.
pub open spec fn stands(data: Seq<u8>, pos: nat, b: Seq<u8>) -> bool {
    pos + b.len() <= data.len() && data.subrange(pos as int, (pos + b.len()) as int) == b
}

proof fn lemma_stands_split(data: Seq<u8>, pos: nat, a: Seq<u8>, b: Seq<u8>)
    requires
        stands(data, pos, a + b),
    ensures
        stands(data, pos, a),
        stands(data, pos + a.len(), b),
{
    let whole = data.subrange(pos as int, (pos + (a + b).len()) as int);
    assert(data.subrange(pos as int, (pos + a.len()) as int) =~= a) by {
        assert(whole.subrange(0, a.len() as int) =~= a);
        assert(data.subrange(pos as int, (pos + a.len()) as int) =~= whole.subrange(
            0,
            a.len() as int,
        ));
    }
    let q = pos + a.len();
    assert(data.subrange(q as int, (q + b.len()) as int) =~= b) by {
        assert(whole.subrange(a.len() as int, (a + b).len() as int) =~= b);
        assert(data.subrange(q as int, (q + b.len()) as int) =~= whole.subrange(
            a.len() as int,
            (a + b).len() as int,
        ));
    }
}

/// A number is read back from its little-endian bytes, and the reader goes on behind
/// them.
pub proof fn written_numbers_are_read_back(data: Seq<u8>, pos: nat, n: nat, width: nat)
    requires
        n < bytes::pow256(width),
        stands(data, pos, bytes::le_bytes(n, width)),
    ensures
        number_at(data, pos, width) == Parsed::Got(n, pos + width),
{
    bytes::le_round_trip(n, width);
}

/// A text as it is written: the number of its bytes in eight, then the bytes.
pub open spec fn text_bytes(s: Seq<char>) -> Seq<u8> {
    bytes::le_bytes(encode_utf8(s).len(), 8) + encode_utf8(s)
}

/// A text is read back from its bytes.
pub proof fn written_texts_are_read_back(data: Seq<u8>, pos: nat, s: Seq<char>)
    requires
        encode_utf8(s).len() <= u64::MAX,
        stands(data, pos, text_bytes(s)),
    ensures
        text_at(data, pos) == Parsed::Got(s, pos + text_bytes(s).len()),
{
    let b = encode_utf8(s);
    bytes::lemma_pow256_values();
    bytes::lemma_le_bytes_len(b.len(), 8);
    lemma_stands_split(data, pos, bytes::le_bytes(b.len(), 8), b);
    written_numbers_are_read_back(data, pos, b.len(), 8);
    encode_utf8_valid_utf8(s);
    encode_utf8_decode_utf8(s);
}

/// The number of a single value's type.
pub open spec fn type_id_of(x: ScalarModel) -> u32 {
    match x {
        ScalarModel::U8(_) => 0,
        ScalarModel::I8(_) => 1,
        ScalarModel::U16(_) => 2,
        ScalarModel::I16(_) => 3,
        ScalarModel::U32(_) => 4,
        ScalarModel::I32(_) => 5,
        ScalarModel::F32(_) => 6,
        ScalarModel::Bool(_) => 7,
        ScalarModel::Text(_) => 8,
        ScalarModel::Nested => 9,
        ScalarModel::U64(_) => 10,
        ScalarModel::I64(_) => 11,
        ScalarModel::F64(_) => 12,
    }
}

/// Whether a value can be written: a text must have a length that can be counted, and
/// arrays in arrays cannot.
pub open spec fn writable(x: ScalarModel) -> bool {
    match x {
        ScalarModel::Text(s) => encode_utf8(s).len() <= u64::MAX,
        ScalarModel::Nested => false,
        _ => true,
    }
}

/// The two's complement of a number below zero, and any other number as it is.
pub open spec fn twos_complement(v: int, size: int) -> nat {
    if v < 0 {
        (v + size) as nat
    } else {
        v as nat
    }
}

/// A single value as it is written.
pub open spec fn scalar_bytes(x: ScalarModel) -> Seq<u8> {
    match x {
        ScalarModel::U8(v) => bytes::le_bytes(v as nat, 1),
        ScalarModel::I8(v) => bytes::le_bytes(twos_complement(v as int, 0x100), 1),
        ScalarModel::U16(v) => bytes::le_bytes(v as nat, 2),
        ScalarModel::I16(v) => bytes::le_bytes(twos_complement(v as int, 0x1_0000), 2),
        ScalarModel::U32(v) => bytes::le_bytes(v as nat, 4),
        ScalarModel::I32(v) => bytes::le_bytes(twos_complement(v as int, 0x1_0000_0000), 4),
        ScalarModel::F32(v) => bytes::le_bytes(v.bits as nat, 4),
        ScalarModel::Bool(v) => bytes::le_bytes(
            if v {
                1
            } else {
                0
            },
            1,
        ),
        ScalarModel::Text(v) => text_bytes(v),
        ScalarModel::Nested => Seq::empty(),
        ScalarModel::U64(v) => bytes::le_bytes(v as nat, 8),
        ScalarModel::I64(v) => bytes::le_bytes(
            twos_complement(v as int, 0x1_0000_0000_0000_0000),
            8,
        ),
        ScalarModel::F64(v) => bytes::le_bytes(v.bits as nat, 8),
    }
}

proof fn lemma_signed_back(a: i8, b: i16, c: i32, d: i64)
    ensures
        (twos_complement(a as int, 0x100) as u8) as i8 == a,
        (twos_complement(b as int, 0x1_0000) as u16) as i16 == b,
        (twos_complement(c as int, 0x1_0000_0000) as u32) as i32 == c,
        (twos_complement(d as int, 0x1_0000_0000_0000_0000) as u64) as i64 == d,
{
    let n1 = twos_complement(a as int, 0x100) as u8;
    let n2 = twos_complement(b as int, 0x1_0000) as u16;
    let n3 = twos_complement(c as int, 0x1_0000_0000) as u32;
    let n4 = twos_complement(d as int, 0x1_0000_0000_0000_0000) as u64;
    assert(n1 as i8 == a) by (bit_vector)
        requires
            a >= 0 ==> n1 == a,
            a < 0 ==> n1 == a + 0x100,
    ;
    assert(n2 as i16 == b) by (bit_vector)
        requires
            b >= 0 ==> n2 == b,
            b < 0 ==> n2 == b + 0x1_0000,
    ;
    assert(n3 as i32 == c) by (bit_vector)
        requires
            c >= 0 ==> n3 == c,
            c < 0 ==> n3 == c + 0x1_0000_0000,
    ;
    assert(n4 as i64 == d) by (bit_vector)
        requires
            d >= 0 ==> n4 == d,
            d < 0 ==> n4 == d + 0x1_0000_0000_0000_0000,
    ;
}

/// A single value of any type is read back from its bytes.
pub proof fn written_scalars_are_read_back(data: Seq<u8>, pos: nat, x: ScalarModel)
    requires
        writable(x),
        stands(data, pos, scalar_bytes(x)),
    ensures
        scalar_at(data, pos, type_id_of(x)) == Parsed::Got(x, pos + scalar_bytes(x).len()),
{
    bytes::lemma_pow256_values();
    match x {
        ScalarModel::U8(v) => {
            bytes::lemma_le_bytes_len(v as nat, 1);
            written_numbers_are_read_back(data, pos, v as nat, 1);
        },
        ScalarModel::I8(v) => {
            let n = twos_complement(v as int, 0x100);
            bytes::lemma_le_bytes_len(n, 1);
            written_numbers_are_read_back(data, pos, n, 1);
            lemma_signed_back(v, 0, 0, 0);
        },
        ScalarModel::U16(v) => {
            bytes::lemma_le_bytes_len(v as nat, 2);
            written_numbers_are_read_back(data, pos, v as nat, 2);
        },
        ScalarModel::I16(v) => {
            let n = twos_complement(v as int, 0x1_0000);
            bytes::lemma_le_bytes_len(n, 2);
            written_numbers_are_read_back(data, pos, n, 2);
            lemma_signed_back(0, v, 0, 0);
        },
        ScalarModel::U32(v) => {
            bytes::lemma_le_bytes_len(v as nat, 4);
            written_numbers_are_read_back(data, pos, v as nat, 4);
        },
        ScalarModel::I32(v) => {
            let n = twos_complement(v as int, 0x1_0000_0000);
            bytes::lemma_le_bytes_len(n, 4);
            written_numbers_are_read_back(data, pos, n, 4);
            lemma_signed_back(0, 0, v, 0);
        },
        ScalarModel::F32(v) => {
            bytes::lemma_le_bytes_len(v.bits as nat, 4);
            written_numbers_are_read_back(data, pos, v.bits as nat, 4);
        },
        ScalarModel::Bool(v) => {
            let n: nat = if v {
                1
            } else {
                0
            };
            bytes::lemma_le_bytes_len(n, 1);
            written_numbers_are_read_back(data, pos, n, 1);
        },
        ScalarModel::Text(v) => {
            written_texts_are_read_back(data, pos, v);
        },
        ScalarModel::Nested => {},
        ScalarModel::U64(v) => {
            bytes::lemma_le_bytes_len(v as nat, 8);
            written_numbers_are_read_back(data, pos, v as nat, 8);
        },
        ScalarModel::I64(v) => {
            let n = twos_complement(v as int, 0x1_0000_0000_0000_0000);
            bytes::lemma_le_bytes_len(n, 8);
            written_numbers_are_read_back(data, pos, n, 8);
            lemma_signed_back(0, 0, 0, v);
        },
        ScalarModel::F64(v) => {
            bytes::lemma_le_bytes_len(v.bits as nat, 8);
            written_numbers_are_read_back(data, pos, v.bits as nat, 8);
        },
    }
}

/// The values of a list after each other.
pub open spec fn scalars_bytes(v: Seq<ScalarModel>) -> Seq<u8>
    decreases v.len(),
{
    if v.len() == 0 {
        Seq::empty()
    } else {
        scalars_bytes(v.drop_last()) + scalar_bytes(v.last())
    }
}

/// A list of values of one type is read back from the bytes of its values.
pub proof fn written_lists_are_read_back(
    data: Seq<u8>,
    pos: nat,
    type_id: u32,
    v: Seq<ScalarModel>,
)
    requires
        forall|i: int|
            0 <= i < v.len() ==> writable(#[trigger] v[i]) && type_id_of(v[i]) == type_id,
        stands(data, pos, scalars_bytes(v)),
    ensures
        scalars_at(data, pos, type_id, v.len()) == Parsed::Got(
            v,
            pos + scalars_bytes(v).len(),
        ),
    decreases v.len(),
{
    if v.len() > 0 {
        let less = v.drop_last();
        assert forall|i: int| 0 <= i < less.len() implies writable(#[trigger] less[i])
            && type_id_of(less[i]) == type_id by {
            assert(less[i] == v[i]);
        }
        lemma_stands_split(data, pos, scalars_bytes(less), scalar_bytes(v.last()));
        written_lists_are_read_back(data, pos, type_id, less);
        assert(writable(v[v.len() - 1]));
        written_scalars_are_read_back(data, pos + scalars_bytes(less).len(), v.last());
        assert(less.push(v.last()) =~= v);
    } else {
        assert(v =~= Seq::empty());
    }
}

/// A value as it is written: the number of its type in four bytes and the value; a
/// list has the number nine, then the number of its elements' type, then their count.
pub open spec fn value_bytes(v: ValueModel, elem: u32) -> Seq<u8> {
    match v {
        ValueModel::One(x) => bytes::le_bytes(type_id_of(x) as nat, 4) + scalar_bytes(x),
        ValueModel::Many(v) => bytes::le_bytes(9, 4) + (bytes::le_bytes(elem as nat, 4) + (
        bytes::le_bytes(v.len(), 8) + scalars_bytes(v))),
    }
}

/// Whether a value can be written with elements of type `elem`.
pub open spec fn writable_value(v: ValueModel, elem: u32) -> bool {
    match v {
        ValueModel::One(x) => writable(x),
        ValueModel::Many(v) => v.len() <= u64::MAX && forall|i: int|
            0 <= i < v.len() ==> writable(#[trigger] v[i]) && type_id_of(v[i]) == elem,
    }
}

/// A metadata value is read back from its bytes.
pub proof fn written_values_are_read_back(data: Seq<u8>, pos: nat, v: ValueModel, elem: u32)
    requires
        writable_value(v, elem),
        stands(data, pos, value_bytes(v, elem)),
    ensures
        value_at(data, pos) == Parsed::Got(v, pos + value_bytes(v, elem).len()),
{
    bytes::lemma_pow256_values();
    match v {
        ValueModel::One(x) => {
            let id = type_id_of(x) as nat;
            bytes::lemma_le_bytes_len(id, 4);
            lemma_stands_split(data, pos, bytes::le_bytes(id, 4), scalar_bytes(x));
            written_numbers_are_read_back(data, pos, id, 4);
            written_scalars_are_read_back(data, pos + 4, x);
        },
        ValueModel::Many(list) => {
            let a = bytes::le_bytes(9, 4);
            let b = bytes::le_bytes(elem as nat, 4);
            let c = bytes::le_bytes(list.len(), 8);
            let d = scalars_bytes(list);
            bytes::lemma_le_bytes_len(9, 4);
            bytes::lemma_le_bytes_len(elem as nat, 4);
            bytes::lemma_le_bytes_len(list.len(), 8);
            lemma_stands_split(data, pos, a, b + (c + d));
            lemma_stands_split(data, pos + 4, b, c + d);
            lemma_stands_split(data, pos + 8, c, d);
            written_numbers_are_read_back(data, pos, 9, 4);
            written_numbers_are_read_back(data, pos + 4, elem as nat, 4);
            written_numbers_are_read_back(data, pos + 8, list.len(), 8);
            written_lists_are_read_back(data, pos + 16, elem, list);
        },
    }
}

/// Dimensions as they are written: eight bytes each.
pub open spec fn shape_bytes(shape: Seq<u64>) -> Seq<u8>
    decreases shape.len(),
{
    if shape.len() == 0 {
        Seq::empty()
    } else {
        shape_bytes(shape.drop_last()) + bytes::le_bytes(shape.last() as nat, 8)
    }
}

proof fn lemma_shape_back(data: Seq<u8>, pos: nat, shape: Seq<u64>)
    requires
        stands(data, pos, shape_bytes(shape)),
    ensures
        shape_at(data, pos, shape.len()) == Parsed::Got(shape, pos + shape_bytes(shape).len()),
    decreases shape.len(),
{
    if shape.len() > 0 {
        let less = shape.drop_last();
        let n = shape.last() as nat;
        bytes::lemma_pow256_values();
        bytes::lemma_le_bytes_len(n, 8);
        lemma_stands_split(data, pos, shape_bytes(less), bytes::le_bytes(n, 8));
        lemma_shape_back(data, pos, less);
        written_numbers_are_read_back(data, pos + shape_bytes(less).len(), n, 8);
        assert(less.push(shape.last()) =~= shape);
    } else {
        assert(shape =~= Seq::empty());
    }
}

/// The number of a weight type.
pub open spec fn number_of_type(t: GgmlType) -> u32 {
    match t {
        GgmlType::F32 => 0,
        GgmlType::F16 => 1,
        GgmlType::Q4_0 => 2,
        GgmlType::Q4_1 => 3,
        GgmlType::Q5_0 => 6,
        GgmlType::Q5_1 => 7,
        GgmlType::Q8_0 => 8,
        GgmlType::Q8_1 => 9,
        GgmlType::Q2K => 10,
        GgmlType::Q3K => 11,
        GgmlType::Q4K => 12,
        GgmlType::Q5K => 13,
        GgmlType::Q6K => 14,
        GgmlType::Q8K => 15,
        GgmlType::I8 => 24,
        GgmlType::I16 => 25,
        GgmlType::I32 => 26,
        GgmlType::I64 => 27,
        GgmlType::F64 => 28,
        GgmlType::BF16 => 30,
    }
}

/// Every type is read back from its number, and no other number stands for a type.
pub proof fn types_are_read_back(t: GgmlType, v: u32)
    ensures
        type_numbered(number_of_type(t)) == Some(t),
        type_numbered(v) matches Some(u) ==> number_of_type(u) == v,
{
}

/// A tensor entry as it is written.
pub open spec fn tensor_bytes(t: TensorModel) -> Seq<u8> {
    text_bytes(t.name) + (bytes::le_bytes(t.shape.len(), 4) + (shape_bytes(t.shape) + (
    bytes::le_bytes(number_of_type(t.dtype) as nat, 4) + bytes::le_bytes(t.offset as nat, 8))))
}

/// A tensor entry is read back from its bytes; its size follows from shape and type.
pub proof fn written_tensors_are_read_back(data: Seq<u8>, pos: nat, t: TensorModel)
    requires
        encode_utf8(t.name).len() <= u64::MAX,
        t.shape.len() <= 4,
        sized(t.shape, t.dtype),
        t.nbytes == t.dtype.bytes_for(elements(t.shape)),
        stands(data, pos, tensor_bytes(t)),
    ensures
        tensor_at(data, pos) == Parsed::Got(t, pos + tensor_bytes(t).len()),
{
    let id = number_of_type(t.dtype) as nat;
    let a = text_bytes(t.name);
    let b = bytes::le_bytes(t.shape.len(), 4);
    let c = shape_bytes(t.shape);
    let d = bytes::le_bytes(id, 4);
    let e = bytes::le_bytes(t.offset as nat, 8);
    bytes::lemma_pow256_values();
    bytes::lemma_le_bytes_len(t.shape.len(), 4);
    bytes::lemma_le_bytes_len(id, 4);
    bytes::lemma_le_bytes_len(t.offset as nat, 8);
    let p1 = pos + a.len();
    let p3 = p1 + 4 + c.len();
    lemma_stands_split(data, pos, a, b + (c + (d + e)));
    lemma_stands_split(data, p1, b, c + (d + e));
    lemma_stands_split(data, p1 + 4, c, d + e);
    lemma_stands_split(data, p3, d, e);
    written_texts_are_read_back(data, pos, t.name);
    written_numbers_are_read_back(data, p1, t.shape.len(), 4);
    lemma_shape_back(data, p1 + 4, t.shape);
    written_numbers_are_read_back(data, p3, id, 4);
    types_are_read_back(t.dtype, 0);
    written_numbers_are_read_back(data, p3 + 4, t.offset as nat, 8);
}

/// A metadata entry to be written: its name, its value and the type of its elements.
pub struct Entry {
    pub key: Seq<char>,
    pub value: ValueModel,
    pub elem: u32,
}

/// Metadata entries as they are written.
pub open spec fn entries_bytes(v: Seq<Entry>) -> Seq<u8>
    decreases v.len(),
{
    if v.len() == 0 {
        Seq::empty()
    } else {
        entries_bytes(v.drop_last()) + (text_bytes(v.last().key) + value_bytes(
            v.last().value,
            v.last().elem,
        ))
    }
}

/// Tensor entries as they are written.
pub open spec fn tensors_bytes(v: Seq<TensorModel>) -> Seq<u8>
    decreases v.len(),
{
    if v.len() == 0 {
        Seq::empty()
    } else {
        tensors_bytes(v.drop_last()) + tensor_bytes(v.last())
    }
}

/// Metadata is read back from its bytes: every entry stands under its name with its
/// value, and there are no others.
pub proof fn written_metadata_is_read_back(data: Seq<u8>, pos: nat, v: Seq<Entry>)
    requires
        forall|i: int|
            0 <= i < v.len() ==> encode_utf8((#[trigger] v[i]).key).len() <= u64::MAX
                && writable_value(v[i].value, v[i].elem),
        forall|i: int, j: int|
            0 <= i < j < v.len() ==> (#[trigger] v[i]).key != (#[trigger] v[j]).key,
        stands(data, pos, entries_bytes(v)),
    ensures
        metadata_at(data, pos, v.len()) matches Parsed::Got(m, p) && {
            &&& p == pos + entries_bytes(v).len()
            &&& forall|i: int|
                0 <= i < v.len() ==> m.contains_key((#[trigger] v[i]).key) && m[v[i].key]
                    == v[i].value
            &&& forall|k: Seq<char>| #[trigger]
                m.contains_key(k) ==> exists|i: int| 0 <= i < v.len() && (#[trigger] v[i]).key == k
        },
    decreases v.len(),
{
    if v.len() > 0 {
        let less = v.drop_last();
        let last = v.last();
        let end = v.len() - 1;
        assert(v[end] == last);
        assert forall|i: int| 0 <= i < less.len() implies encode_utf8((#[trigger] less[i]).key).len()
            <= u64::MAX && writable_value(less[i].value, less[i].elem) by {
            assert(less[i] == v[i]);
        }
        assert forall|i: int, j: int| 0 <= i < j < less.len() implies (#[trigger] less[i]).key != (
        #[trigger] less[j]).key by {
            assert(less[i] == v[i] && less[j] == v[j]);
        }
        let a = text_bytes(last.key);
        let b = value_bytes(last.value, last.elem);
        lemma_stands_split(data, pos, entries_bytes(less), a + b);
        written_metadata_is_read_back(data, pos, less);
        let q = pos + entries_bytes(less).len();
        lemma_stands_split(data, q, a, b);
        written_texts_are_read_back(data, q, last.key);
        written_values_are_read_back(data, q + a.len(), last.value, last.elem);
        let before = metadata_at(data, pos, less.len())->Got_0;
        let m = before.insert(last.key, last.value);
        assert forall|i: int| 0 <= i < v.len() implies m.contains_key((#[trigger] v[i]).key)
            && m[v[i].key] == v[i].value by {
            if i < end {
                assert(less[i] == v[i]);
                assert(v[i].key != v[end].key);
            }
        }
        assert forall|k: Seq<char>| #[trigger] m.contains_key(k) implies exists|i: int|
            0 <= i < v.len() && (#[trigger] v[i]).key == k by {
            if k == last.key {
                assert(v[end].key == k);
            } else {
                assert(before.contains_key(k));
                let i = choose|i: int| 0 <= i < less.len() && (#[trigger] less[i]).key == k;
                assert(v[i].key == k);
            }
        }
    }
}

/// The tensor table is read back from its bytes: every tensor stands under its name,
/// and there are no others.
pub proof fn written_tables_are_read_back(data: Seq<u8>, pos: nat, v: Seq<TensorModel>)
    requires
        forall|i: int|
            0 <= i < v.len() ==> {
                &&& encode_utf8((#[trigger] v[i]).name).len() <= u64::MAX
                &&& v[i].shape.len() <= 4
                &&& sized(v[i].shape, v[i].dtype)
                &&& v[i].nbytes == v[i].dtype.bytes_for(elements(v[i].shape))
            },
        forall|i: int, j: int|
            0 <= i < j < v.len() ==> (#[trigger] v[i]).name != (#[trigger] v[j]).name,
        stands(data, pos, tensors_bytes(v)),
    ensures
        tensors_at(data, pos, v.len()) matches Parsed::Got(m, p) && {
            &&& p == pos + tensors_bytes(v).len()
            &&& forall|i: int|
                0 <= i < v.len() ==> m.contains_key((#[trigger] v[i]).name) && m[v[i].name] == v[i]
            &&& forall|k: Seq<char>| #[trigger]
                m.contains_key(k) ==> exists|i: int| 0 <= i < v.len() && (#[trigger] v[i]).name == k
        },
    decreases v.len(),
{
    if v.len() > 0 {
        let less = v.drop_last();
        let last = v.last();
        let end = v.len() - 1;
        assert(v[end] == last);
        assert forall|i: int| 0 <= i < less.len() implies {
            &&& encode_utf8((#[trigger] less[i]).name).len() <= u64::MAX
            &&& less[i].shape.len() <= 4
            &&& sized(less[i].shape, less[i].dtype)
            &&& less[i].nbytes == less[i].dtype.bytes_for(elements(less[i].shape))
        } by {
            assert(less[i] == v[i]);
        }
        assert forall|i: int, j: int| 0 <= i < j < less.len() implies (#[trigger] less[i]).name != (
        #[trigger] less[j]).name by {
            assert(less[i] == v[i] && less[j] == v[j]);
        }
        lemma_stands_split(data, pos, tensors_bytes(less), tensor_bytes(last));
        written_tables_are_read_back(data, pos, less);
        written_tensors_are_read_back(data, pos + tensors_bytes(less).len(), last);
        let before = tensors_at(data, pos, less.len())->Got_0;
        let m = before.insert(last.name, last);
        assert forall|i: int| 0 <= i < v.len() implies m.contains_key((#[trigger] v[i]).name)
            && m[v[i].name] == v[i] by {
            if i < end {
                assert(less[i] == v[i]);
                assert(v[i].name != v[end].name);
            }
        }
        assert forall|k: Seq<char>| #[trigger] m.contains_key(k) implies exists|i: int|
            0 <= i < v.len() && (#[trigger] v[i]).name == k by {
            if k == last.name {
                assert(v[end].name == k);
            } else {
                assert(before.contains_key(k));
                let i = choose|i: int| 0 <= i < less.len() && (#[trigger] less[i]).name == k;
                assert(v[i].name == k);
            }
        }
    }
}

/// The front of a file as it is written: the letters GGUF, the version in four bytes,
/// the numbers of tensors and of metadata entries in eight each, the metadata and the
/// tensor table.
pub open spec fn front_bytes(version: u32, entries: Seq<Entry>, table: Seq<TensorModel>) -> Seq<
    u8,
> {
    seq![0x47u8, 0x47u8, 0x55u8, 0x46u8] + (bytes::le_bytes(version as nat, 4) + (bytes::le_bytes(
        table.len(),
        8,
    ) + (bytes::le_bytes(entries.len(), 8) + (entries_bytes(entries) + tensors_bytes(table)))))
}

/// A file of a known version is read back: its version, its metadata and its tensors.
/// The data starts behind the tensor table, at the first multiple of the alignment.
pub proof fn written_files_are_read_back(
    data: Seq<u8>,
    version: u32,
    entries: Seq<Entry>,
    table: Seq<TensorModel>,
)
    requires
        1 <= version <= 3,
        stands(data, 0, front_bytes(version, entries, table)),
        table.len() <= u64::MAX,
        entries.len() <= u64::MAX,
        forall|i: int|
            0 <= i < entries.len() ==> encode_utf8((#[trigger] entries[i]).key).len() <= u64::MAX
                && writable_value(entries[i].value, entries[i].elem),
        forall|i: int, j: int|
            0 <= i < j < entries.len() ==> (#[trigger] entries[i]).key != (
            #[trigger] entries[j]).key,
        forall|i: int|
            0 <= i < table.len() ==> {
                &&& encode_utf8((#[trigger] table[i]).name).len() <= u64::MAX
                &&& table[i].shape.len() <= 4
                &&& sized(table[i].shape, table[i].dtype)
                &&& table[i].nbytes == table[i].dtype.bytes_for(elements(table[i].shape))
            },
        forall|i: int, j: int|
            0 <= i < j < table.len() ==> (#[trigger] table[i]).name != (#[trigger] table[j]).name,
    ensures
        file_at(data) matches Parsed::Got(f, p) ==> {
            let end = front_bytes(version, entries, table).len();
            &&& f.version == version
            &&& forall|i: int|
                0 <= i < entries.len() ==> f.metadata.contains_key((#[trigger] entries[i]).key)
                    && f.metadata[entries[i].key] == entries[i].value
            &&& forall|i: int|
                0 <= i < table.len() ==> f.tensors.contains_key((#[trigger] table[i]).name)
                    && f.tensors[table[i].name] == table[i]
            &&& end <= f.data_offset < end + alignment_of(f.metadata)
        },
        file_at(data) matches Parsed::Failed(e) ==> e == ErrorModel::Malformed("bad alignment"@),
{
    let a = seq![0x47u8, 0x47u8, 0x55u8, 0x46u8];
    let b = bytes::le_bytes(version as nat, 4);
    let c = bytes::le_bytes(table.len(), 8);
    let d = bytes::le_bytes(entries.len(), 8);
    let e = entries_bytes(entries);
    let g = tensors_bytes(table);
    bytes::lemma_pow256_values();
    bytes::lemma_le_bytes_len(version as nat, 4);
    bytes::lemma_le_bytes_len(table.len(), 8);
    bytes::lemma_le_bytes_len(entries.len(), 8);
    lemma_stands_split(data, 0, a, b + (c + (d + (e + g))));
    lemma_stands_split(data, 4, b, c + (d + (e + g)));
    lemma_stands_split(data, 8, c, d + (e + g));
    lemma_stands_split(data, 16, d, e + g);
    lemma_stands_split(data, 24, e, g);
    bytes::le_values_spelled_out(a);
    assert(number_at(data, 0, 4) == Parsed::Got(GGUF_MAGIC as nat, 4nat));
    written_numbers_are_read_back(data, 4, version as nat, 4);
    written_numbers_are_read_back(data, 8, table.len(), 8);
    written_numbers_are_read_back(data, 16, entries.len(), 8);
    written_metadata_is_read_back(data, 24, entries);
    written_tables_are_read_back(data, 24 + e.len(), table);
    assert(file_at(data) == body_at(data, version, table.len(), entries.len(), 24));
    data_starts_aligned(data);
}

/// The alignment is the number that the file states, as a 32-bit or a 64-bit one, and
/// 32 where it states none.
pub proof fn stated_alignments_are_taken(m: Map<Seq<char>, ValueModel>, v: u32, w: u64)
    ensures
        ({
            let key = "general.alignment"@;
            &&& m.contains_key(key) && m[key] == ValueModel::One(ScalarModel::U32(v))
                ==> alignment_of(m) == v
            &&& m.contains_key(key) && m[key] == ValueModel::One(ScalarModel::U64(w))
                ==> alignment_of(m) == w
            &&& !m.contains_key(key) ==> alignment_of(m) == 32
        }),
{
}

/// Values are stored in whole blocks: just enough of them, each with the bits of its
/// values and its scales.
pub proof fn sizes_are_whole_blocks(t: GgmlType, n: nat)
    ensures
        ({
            let size = t.bytes_for(n);
            let block = t.block_bytes() as nat;
            let elems = t.block_elems() as nat;
            let blocks = size / block;
            &&& size == blocks * block
            &&& n <= blocks * elems < n + elems
        }),
        t is F32 || t is I32 ==> t.bytes_for(n) == 4 * n,
        t is F16 || t is BF16 || t is I16 ==> t.bytes_for(n) == 2 * n,
        t is I64 || t is F64 ==> t.bytes_for(n) == 8 * n,
        t is I8 ==> t.bytes_for(n) == n,
        t is Q4_0 ==> 8 * t.block_bytes() == 16 + 32 * 4 && t.block_elems() == 32,
        t is Q4_1 ==> 8 * t.block_bytes() == 32 + 32 * 4 && t.block_elems() == 32,
        t is Q5_0 ==> 8 * t.block_bytes() == 16 + 32 * 5 && t.block_elems() == 32,
        t is Q5_1 ==> 8 * t.block_bytes() == 32 + 32 * 5 && t.block_elems() == 32,
        t is Q8_0 ==> 8 * t.block_bytes() == 16 + 32 * 8 && t.block_elems() == 32,
        t is Q8_1 ==> 8 * t.block_bytes() == 32 + 32 * 8 && t.block_elems() == 32,
        t is Q2K ==> 8 * t.block_bytes() == 160 + 256 * 2 && t.block_elems() == 256,
        t is Q3K ==> 8 * t.block_bytes() == 112 + 256 * 3 && t.block_elems() == 256,
        t is Q4K ==> 8 * t.block_bytes() == 128 + 256 * 4 && t.block_elems() == 256,
        t is Q5K ==> 8 * t.block_bytes() == 128 + 256 * 5 && t.block_elems() == 256,
        t is Q6K ==> 8 * t.block_bytes() == 144 + 256 * 6 && t.block_elems() == 256,
        t is Q8K ==> 8 * t.block_bytes() == 288 + 256 * 8 && t.block_elems() == 256,
{
    let e = t.block_elems() as int;
    let b = t.block_bytes() as int;
    let q = ceil_div(n, e as nat) as int;
    vstd::arithmetic::div_mod::lemma_fundamental_div_mod(n as int, e);
    assert(e * (n as int / e) == (n as int / e) * e) by (nonlinear_arith);
    assert((n as int / e + 1) * e == (n as int / e) * e + e) by (nonlinear_arith);
    assert(q * b == b * q) by (nonlinear_arith);
    vstd::arithmetic::div_mod::lemma_div_multiples_vanish(q, b);
}

/// The number of values is the product of the dimensions.
pub proof fn elements_are_the_product(a: u64, b: u64, c: u64, d: u64)
    ensures
        elements(seq![a]) == a,
        elements(seq![a, b]) == a * b,
        elements(seq![a, b, c]) == a * b * c,
        elements(seq![a, b, c, d]) == a * b * c * d,
{
    reveal_with_fuel(elements, 5);
    assert(seq![a].drop_last() =~= Seq::<u64>::empty());
    assert(seq![a, b].drop_last() =~= seq![a]);
    assert(seq![a, b, c].drop_last() =~= seq![a, b]);
    assert(seq![a, b, c, d].drop_last() =~= seq![a, b, c]);
    assert(1 * a as nat == a) by (nonlinear_arith);
}

} // verus!
