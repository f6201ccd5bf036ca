//! Weight sharding utilities for Tensor Parallelism.

use vstd::prelude::*;
use vstd::string::*;
use crate::metal::types::Quantization;
use crate::model_loader;
use crate::speculative::SpeculativeError;
use crate::text;
use crate::text::{push_decimal, same_text, text_contains};

verus! {

/// Type of sharding to apply to a tensor.
#[derive(Debug, Clone, Copy, PartialEq, Eq, Structural)]
pub enum ShardStrategy {
    /// No sharding (replicated across all devices).
    Replicated,
    /// Column-parallel: split along the output dimension (rows in the matrix).
    Column,
    /// Row-parallel: split along the input dimension (columns in the matrix).
    Row,
}

/// A sharded view of a weight tensor.
#[derive(Debug, Clone)]
pub struct ShardedWeight {
    pub data: Vec<u8>,
    pub shape: Vec<u64>,
}

/// The shard of a rank: its bytes and its shape.
pub struct ShardModel {
    pub data: Seq<u8>,
    pub shape: Seq<u64>,
}

impl View for ShardedWeight {
    type V = ShardModel;

    open spec fn view(&self) -> ShardModel {
        ShardModel { data: self.data@, shape: self.shape@ }
    }
}

/// The rows of a matrix that is split by rows: its last dimension.
pub open spec fn column_rows(shape: Seq<u64>) -> usize {
    shape.last() as usize
}

/// The rows of a matrix that is split by columns: its second dimension.
pub open spec fn row_rows(shape: Seq<u64>) -> usize {
    if shape.len() > 1 {
        shape[1] as usize
    } else {
        1
    }
}

/// The bytes of `rank`, where each rank has `part` bytes of every row of
/// `row_bytes`, for the first `n` rows.
pub open spec fn row_parts(data: Seq<u8>, row_bytes: nat, part: nat, rank: nat, n: nat) -> Seq<u8>
    decreases n,
{
    if n == 0 {
        Seq::empty()
    } else {
        let at = ((n - 1) * row_bytes + rank * part) as int;
        row_parts(data, row_bytes, part, rank, (n - 1) as nat) + data.subrange(
            at,
            (at + part) as int,
        )
    }
}

/// The complaint of a dimension that cannot be split evenly.
pub open spec fn uneven_text(name: Seq<char>, what: Seq<char>, n: nat, degree: nat) -> Seq<char> {
    "Tensor "@ + name + what + text::decimal(n) + ") not divisible by TP degree "@
        + text::decimal(degree)
}

/// The complaint of a split within a block.
pub open spec fn block_text(name: Seq<char>, cols: nat, block: nat) -> Seq<char> {
    "Tensor "@ + name + " shard cols ("@ + text::decimal(cols) + ") must be multiple of block size "@
        + text::decimal(block)
}

/// Whether a tensor is left whole.
pub open spec fn kept_whole(strategy: ShardStrategy, tp_degree: usize) -> bool {
    tp_degree <= 1 || strategy is Replicated
}

/// The shard of a rank, or why there is none.
pub open spec fn shard_of(
    name: Seq<char>,
    data: Seq<u8>,
    shape: Seq<u64>,
    quant: Quantization,
    strategy: ShardStrategy,
    tp_degree: usize,
    tp_rank: usize,
) -> Result<ShardModel, Seq<char>> {
    if kept_whole(strategy, tp_degree) {
        Ok(ShardModel { data, shape })
    } else if strategy is Column {
        let rows = column_rows(shape);
        if rows % tp_degree != 0 {
            Err(uneven_text(name, " rows ("@, rows as nat, tp_degree as nat))
        } else {
            let shard_rows = (rows / tp_degree) as nat;
            let bytes = shard_rows * (data.len() / rows as nat);
            Ok(
                ShardModel {
                    data: data.subrange(
                        (tp_rank as nat * bytes) as int,
                        ((tp_rank as nat + 1) * bytes) as int,
                    ),
                    shape: shape.update(shape.len() - 1, shard_rows as u64),
                },
            )
        }
    } else {
        let cols = shape[0] as usize;
        let shard_cols = (cols / tp_degree) as nat;
        if cols % tp_degree != 0 {
            Err(uneven_text(name, " cols ("@, cols as nat, tp_degree as nat))
        } else if shard_cols % quant.block() as nat != 0 {
            Err(block_text(name, shard_cols, quant.block() as nat))
        } else {
            let rows = row_rows(shape) as nat;
            let row_bytes = data.len() / rows;
            Ok(
                ShardModel {
                    data: row_parts(
                        data,
                        row_bytes,
                        row_bytes / tp_degree as nat,
                        tp_rank as nat,
                        rows,
                    ),
                    shape: shape.update(0, shard_cols as u64),
                },
            )
        }
    }
}

/// Byte `j` of row `r` of a matrix whose rows have `width` bytes.
pub open spec fn byte_at(data: Seq<u8>, width: int, r: int, j: int) -> u8 {
    data[r * width + j]
}

fn copied_bytes(data: &[u8], start: usize, end: usize) -> (v: Vec<u8>)
    requires
        start <= end <= data@.len(),
    ensures
        v@ == data@.subrange(start as int, end as int),
{
    vstd::slice::slice_to_vec(vstd::slice::slice_subrange(data, start, end))
}

fn append_range(out: &mut Vec<u8>, data: &[u8], start: usize, end: usize)
    requires
        start <= end <= data@.len(),
    ensures
        final(out)@ == old(out)@ + data@.subrange(start as int, end as int),
{
    let ghost before = out@;
    let mut i: usize = start;
    assert(before + data@.subrange(start as int, start as int) =~= before);
    while i < end
        invariant
            start <= i <= end <= data@.len(),
            out@ == before + data@.subrange(start as int, i as int),
        decreases end - i,
    {
        out.push(data[i]);
        i = i + 1;
        assert(out@ =~= before + data@.subrange(start as int, i as int));
    }
}

fn uneven(name: &str, what: &str, n: usize, degree: usize) -> (e: SpeculativeError)
    ensures
        e is Model,
        e->Model_0@ == uneven_text(name@, what@, n as nat, degree as nat),
{
    let mut s = String::from_str("Tensor ");
    s.append(name);
    s.append(what);
    push_decimal(&mut s, n as u64);
    s.append(") not divisible by TP degree ");
    push_decimal(&mut s, degree as u64);
    SpeculativeError::Model(s)
}

/// Shards a weight tensor based on the specified strategy.
///
/// GGUF tensors are usually [cols, rows].
/// - Column-parallel splits 'rows'.
/// - Row-parallel splits 'cols'.
pub fn shard_weight(
    name: &str,
    data: &[u8],
    shape: &[u64],
    quant: Quantization,
    strategy: ShardStrategy,
    tp_degree: usize,
    tp_rank: usize,
) -> (r: Result<ShardedWeight, SpeculativeError>)
    requires
        !kept_whole(strategy, tp_degree) ==> shape@.len() > 0 && tp_rank < tp_degree,
        !kept_whole(strategy, tp_degree) && strategy is Column ==> column_rows(shape@) > 0,
        !kept_whole(strategy, tp_degree) && strategy is Row ==> shape@[0] as usize > 0 && row_rows(
            shape@,
        ) > 0,
    ensures
        match shard_of(name@, data@, shape@, quant, strategy, tp_degree, tp_rank) {
            Ok(m) => r is Ok && r->Ok_0@ == m,
            Err(s) => r is Err && r->Err_0 is Model && r->Err_0->Model_0@ == s,
        },
        r is Ok && kept_whole(strategy, tp_degree) ==> r->Ok_0.data@ == data@ && r->Ok_0.shape@
            == shape@,
        r is Ok && !kept_whole(strategy, tp_degree) && strategy is Row ==> {
            let rows = if shape@.len() > 1 {
                shape@[1] as usize as int
            } else {
                1
            };
            let row_bytes = data@.len() as int / rows;
            let part = row_bytes / tp_degree as int;
            &&& r->Ok_0.data@.len() == rows * part
            &&& forall|i: int, j: int|
                0 <= i < rows && 0 <= j < part ==> #[trigger] byte_at(r->Ok_0.data@, part, i, j)
                    == data@[i * row_bytes + tp_rank * part + j]
        },
        r is Ok && !kept_whole(strategy, tp_degree) && strategy is Column ==> {
            let rows = shape@[shape@.len() - 1] as usize as int;
            let row_bytes = data@.len() as int / rows;
            let own = rows / tp_degree as int;
            &&& r->Ok_0.data@.len() == own * row_bytes
            &&& forall|i: int, j: int|
                0 <= i < own && 0 <= j < row_bytes ==> #[trigger] byte_at(
                    r->Ok_0.data@,
                    row_bytes,
                    i,
                    j,
                ) == data@[(tp_rank * own + i) * row_bytes + j]
        },
{
    proof {
        lemma_row_cells(name@, data@, shape@, quant, strategy, tp_degree, tp_rank);
        lemma_column_cells(name@, data@, shape@, quant, strategy, tp_degree, tp_rank);
    }
    let len: usize = data.len();
    let whole: bool = match strategy {
        ShardStrategy::Replicated => true,
        _ => tp_degree <= 1,
    };
    let mut shard_shape: Vec<u64> = vstd::slice::slice_to_vec(shape);
    if whole {
        return Ok(
            ShardedWeight { data: vstd::slice::slice_to_vec(data), shape: shard_shape },
        );
    }
    match strategy {
        ShardStrategy::Column => {
            let last_idx: usize = shape.len() - 1;
            let rows: usize = shape[last_idx] as usize;
            if rows % tp_degree != 0 {
                return Err(uneven(name, " rows (", rows, tp_degree));
            }
            let shard_rows: usize = rows / tp_degree;
            let row_bytes: usize = len / rows;
            proof {
                lemma_column_bounds(
                    len as int,
                    rows as int,
                    tp_degree as int,
                    tp_rank as int,
                );
            }
            let bytes: usize = shard_rows * row_bytes;
            let start: usize = tp_rank * bytes;
            let end: usize = start + bytes;
            proof {
                assert((tp_rank + 1) * bytes == tp_rank * bytes + bytes) by (nonlinear_arith);
            }
            shard_shape.set(last_idx, shard_rows as u64);
            Ok(ShardedWeight { data: copied_bytes(data, start, end), shape: shard_shape })
        },
        _ => {
            let cols: usize = shape[0] as usize;
            if cols % tp_degree != 0 {
                return Err(uneven(name, " cols (", cols, tp_degree));
            }
            let shard_cols: usize = cols / tp_degree;
            let block_size: usize = quant.block_size();
            if shard_cols % block_size != 0 {
                let mut s = String::from_str("Tensor ");
                s.append(name);
                s.append(" shard cols (");
                push_decimal(&mut s, shard_cols as u64);
                s.append(") must be multiple of block size ");
                push_decimal(&mut s, block_size as u64);
                return Err(SpeculativeError::Model(s));
            }
            let rows: usize = if shape.len() > 1 {
                shape[1] as usize
            } else {
                1
            };
            let row_bytes: usize = len / rows;
            let part: usize = row_bytes / tp_degree;
            let mut shard_data: Vec<u8> = Vec::new();
            let mut r: usize = 0;
            while r < rows
                invariant
                    r <= rows,
                    rows > 0,
                    tp_rank < tp_degree,
                    len == data@.len(),
                    row_bytes == len / rows,
                    part == row_bytes / tp_degree,
                    shard_data@ == row_parts(
                        data@,
                        row_bytes as nat,
                        part as nat,
                        tp_rank as nat,
                        r as nat,
                    ),
                decreases rows - r,
            {
                proof {
                    lemma_row_bounds(
                        len as int,
                        rows as int,
                        tp_degree as int,
                        tp_rank as int,
                        r as int,
                    );
                }
                let row_start: usize = r * row_bytes;
                let shard_start: usize = row_start + tp_rank * part;
                let shard_end: usize = shard_start + part;
                append_range(&mut shard_data, data, shard_start, shard_end);
                r = r + 1;
            }
            shard_shape.set(0, shard_cols as u64);
            Ok(ShardedWeight { data: shard_data, shape: shard_shape })
        },
    }
}

proof fn lemma_column_bounds(len: int, rows: int, degree: int, rank: int)
    requires
        len >= 0,
        rows > 0,
        degree > 1,
        0 <= rank < degree,
        rows % degree == 0,
    ensures
        ({
            let bytes = (rows / degree) * (len / rows);
            &&& 0 <= bytes
            &&& 0 <= rank * bytes
            &&& rank * bytes + bytes <= len
            &&& degree * bytes <= len
        }),
{
    let s = rows / degree;
    let w = len / rows;
    vstd::arithmetic::div_mod::lemma_fundamental_div_mod(rows, degree);
    vstd::arithmetic::div_mod::lemma_fundamental_div_mod(len, rows);
    assert(degree * (s * w) == rows * w) by (nonlinear_arith)
        requires
            rows == degree * s,
    ;
    assert(0 <= s * w) by (nonlinear_arith)
        requires
            s >= 0,
            w >= 0,
    ;
    let b = s * w;
    assert(rank * b + b <= degree * b && 0 <= rank * b) by (nonlinear_arith)
        requires
            0 <= rank < degree,
            b >= 0,
    ;
}

proof fn lemma_row_bounds(len: int, rows: int, degree: int, rank: int, r: int)
    requires
        len >= 0,
        rows > 0,
        degree > 0,
        0 <= rank < degree,
        0 <= r < rows,
    ensures
        ({
            let w = len / rows;
            let part = w / degree;
            &&& 0 <= part
            &&& 0 <= rank * part
            &&& 0 <= r * w
            &&& rank * part + part <= w
            &&& r * w + w <= len
        }),
{
    let w = len / rows;
    let part = w / degree;
    vstd::arithmetic::div_mod::lemma_fundamental_div_mod(len, rows);
    vstd::arithmetic::div_mod::lemma_fundamental_div_mod(w, degree);
    assert(rank * part + part <= degree * part && 0 <= rank * part) by (nonlinear_arith)
        requires
            0 <= rank < degree,
            part >= 0,
    ;
    assert(r * w + w <= rows * w && 0 <= r * w) by (nonlinear_arith)
        requires
            0 <= r < rows,
            w >= 0,
    ;
}

/// The shards of all ranks below `n`, after each other.
pub open spec fn column_shards(data: Seq<u8>, bytes: nat, n: nat) -> Seq<u8>
    decreases n,
{
    if n == 0 {
        Seq::empty()
    } else {
        column_shards(data, bytes, (n - 1) as nat) + data.subrange(
            ((n - 1) * bytes) as int,
            (n * bytes) as int,
        )
    }
}

/// Shards by rows put after each other give the matrix back: nothing is lost
/// and nothing comes twice.
pub proof fn column_shards_make_the_whole(data: Seq<u8>, bytes: nat, n: nat)
    requires
        n * bytes <= data.len(),
    ensures
        column_shards(data, bytes, n) == data.take((n * bytes) as int),
    decreases n,
{
    if n > 0 {
        assert((n - 1) * bytes + bytes == n * bytes) by (nonlinear_arith)
            requires
                n > 0,
        ;
        column_shards_make_the_whole(data, bytes, (n - 1) as nat);
        assert(column_shards(data, bytes, n) =~= data.take((n * bytes) as int));
    } else {
        assert(n * bytes == 0) by (nonlinear_arith)
            requires
                n == 0,
        ;
        assert(data.take(0) =~= Seq::<u8>::empty());
    }
}

/// A shard by columns holds for each row the bytes of its rank, in order.
pub proof fn row_shards_hold_their_columns(
    data: Seq<u8>,
    row_bytes: nat,
    part: nat,
    rank: nat,
    n: nat,
    r: nat,
    j: nat,
)
    requires
        r < n,
        j < part,
        rank * part + part <= row_bytes,
        n * row_bytes <= data.len(),
    ensures
        row_parts(data, row_bytes, part, rank, n).len() == n * part,
        row_parts(data, row_bytes, part, rank, n)[(r * part + j) as int] == data[(r * row_bytes
            + rank * part + j) as int],
    decreases n,
{
    assert((n - 1) * part + part == n * part) by (nonlinear_arith)
        requires
            n > 0,
    ;
    assert((n - 1) * row_bytes + row_bytes == n * row_bytes) by (nonlinear_arith)
        requires
            n > 0,
    ;
    lemma_row_parts_len(data, row_bytes, part, rank, n);
    lemma_row_parts_len(data, row_bytes, part, rank, (n - 1) as nat);
    if r < n - 1 {
        row_shards_hold_their_columns(data, row_bytes, part, rank, (n - 1) as nat, r, j);
        assert(r * part + j < (n - 1) * part) by (nonlinear_arith)
            requires
                r < n - 1,
                j < part,
        ;
    }
}

proof fn lemma_row_parts_len(data: Seq<u8>, row_bytes: nat, part: nat, rank: nat, n: nat)
    requires
        rank * part + part <= row_bytes,
        n * row_bytes <= data.len(),
    ensures
        row_parts(data, row_bytes, part, rank, n).len() == n * part,
    decreases n,
{
    if n > 0 {
        assert((n - 1) * row_bytes + row_bytes == n * row_bytes) by (nonlinear_arith)
            requires
                n > 0,
        ;
        assert((n - 1) * part + part == n * part) by (nonlinear_arith)
            requires
                n > 0,
        ;
        assert(0 <= (n - 1) * row_bytes && 0 <= rank * part) by (nonlinear_arith)
            requires
                n > 0,
        ;
        lemma_row_parts_len(data, row_bytes, part, rank, (n - 1) as nat);
    } else {
        assert(n * part == 0) by (nonlinear_arith)
            requires
                n == 0,
        ;
    }
}

proof fn lemma_row_cells(
    name: Seq<char>,
    data: Seq<u8>,
    shape: Seq<u64>,
    quant: Quantization,
    strategy: ShardStrategy,
    tp_degree: usize,
    tp_rank: usize,
)
    requires
        tp_rank < tp_degree || kept_whole(strategy, tp_degree),
        !kept_whole(strategy, tp_degree) && strategy is Row ==> row_rows(shape) > 0,
    ensures
        ({
            let r = shard_of(name, data, shape, quant, strategy, tp_degree, tp_rank);
            let rows = row_rows(shape) as int;
            let row_bytes = data.len() as int / rows;
            let part = row_bytes / tp_degree as int;
            r is Ok && !kept_whole(strategy, tp_degree) && strategy is Row ==> {
                &&& r->Ok_0.data.len() == rows * part
                &&& forall|i: int, j: int|
                    0 <= i < rows && 0 <= j < part ==> #[trigger] byte_at(
                        r->Ok_0.data,
                        part,
                        i,
                        j,
                    ) == data[i * row_bytes + tp_rank * part + j]
            }
        }),
{
    let r = shard_of(name, data, shape, quant, strategy, tp_degree, tp_rank);
    if r is Ok && !kept_whole(strategy, tp_degree) && strategy is Row {
        let rows = row_rows(shape) as nat;
        let row_bytes = data.len() / rows;
        let part = row_bytes / tp_degree as nat;
        lemma_row_bounds(data.len() as int, rows as int, tp_degree as int, tp_rank as int, 0);
        vstd::arithmetic::div_mod::lemma_fundamental_div_mod(data.len() as int, rows as int);
        assert(rows * row_bytes <= data.len());
        lemma_row_parts_len(data, row_bytes, part, tp_rank as nat, rows);
        assert forall|i: int, j: int| 0 <= i < rows && 0 <= j < part implies #[trigger] byte_at(
            r->Ok_0.data,
            part as int,
            i,
            j,
        ) == data[i * row_bytes + tp_rank * part + j] by {
            row_shards_hold_their_columns(
                data,
                row_bytes,
                part,
                tp_rank as nat,
                rows,
                i as nat,
                j as nat,
            );
        }
    }
}

proof fn lemma_column_cells(
    name: Seq<char>,
    data: Seq<u8>,
    shape: Seq<u64>,
    quant: Quantization,
    strategy: ShardStrategy,
    tp_degree: usize,
    tp_rank: usize,
)
    requires
        tp_rank < tp_degree || kept_whole(strategy, tp_degree),
        !kept_whole(strategy, tp_degree) && strategy is Column ==> column_rows(shape) > 0,
    ensures
        ({
            let r = shard_of(name, data, shape, quant, strategy, tp_degree, tp_rank);
            let rows = column_rows(shape) as int;
            let row_bytes = data.len() as int / rows;
            let own = rows / tp_degree as int;
            r is Ok && !kept_whole(strategy, tp_degree) && strategy is Column ==> {
                &&& r->Ok_0.data.len() == own * row_bytes
                &&& forall|i: int, j: int|
                    0 <= i < own && 0 <= j < row_bytes ==> #[trigger] byte_at(
                        r->Ok_0.data,
                        row_bytes,
                        i,
                        j,
                    ) == data[(tp_rank * own + i) * row_bytes + j]
            }
        }),
{
    let r = shard_of(name, data, shape, quant, strategy, tp_degree, tp_rank);
    if r is Ok && !kept_whole(strategy, tp_degree) && strategy is Column {
        let rows = column_rows(shape) as int;
        let row_bytes = data.len() as int / rows;
        let own = rows / tp_degree as int;
        let k = tp_rank as int;
        lemma_column_bounds(data.len() as int, rows, tp_degree as int, k);
        let bytes = own * row_bytes;
        assert((k + 1) * bytes == k * bytes + bytes) by (nonlinear_arith);
        assert forall|i: int, j: int| 0 <= i < own && 0 <= j < row_bytes implies #[trigger] byte_at(
            r->Ok_0.data,
            row_bytes,
            i,
            j,
        ) == data[(k * own + i) * row_bytes + j] by {
            assert(0 <= i * row_bytes + j < bytes) by (nonlinear_arith)
                requires
                    0 <= i < own,
                    0 <= j < row_bytes,
                    bytes == own * row_bytes,
            ;
            assert((k * own + i) * row_bytes + j == k * bytes + (i * row_bytes + j))
                by (nonlinear_arith)
                requires
                    bytes == own * row_bytes,
            ;
        }
    }
}

/// A shard by columns has, of every row, the bytes of its rank: of `row_bytes` bytes
/// rank `k` has those from `k * part` on. Its first dimension is its share of the
/// columns, and the others stay.
pub proof fn row_shards_are_the_columns_of_their_rank(
    name: Seq<char>,
    data: Seq<u8>,
    shape: Seq<u64>,
    quant: Quantization,
    tp_degree: usize,
    k: usize,
    r: int,
    j: int,
)
    requires
        1 < tp_degree,
        k < tp_degree,
        shape.len() > 0,
        shape.len() > 1 ==> shape[1] as usize > 0,
        shard_of(name, data, shape, quant, ShardStrategy::Row, tp_degree, k) is Ok,
    ensures
        ({
            let s = shard_of(name, data, shape, quant, ShardStrategy::Row, tp_degree, k)->Ok_0;
            let rows = if shape.len() > 1 {
                shape[1] as usize as int
            } else {
                1
            };
            let row_bytes = data.len() as int / rows;
            let part = row_bytes / tp_degree as int;
            &&& s.data.len() == rows * part
            &&& 0 <= r < rows && 0 <= j < part ==> s.data[r * part + j] == data[r * row_bytes + k
                * part + j]
            &&& s.shape.len() == shape.len()
            &&& s.shape[0] * tp_degree == shape[0] as usize
            &&& forall|d: int| 0 < d < shape.len() ==> #[trigger] s.shape[d] == shape[d]
        }),
{
    lemma_row_cells(name, data, shape, quant, ShardStrategy::Row, tp_degree, k);
    let s = shard_of(name, data, shape, quant, ShardStrategy::Row, tp_degree, k)->Ok_0;
    let rows = row_rows(shape) as int;
    let part = data.len() as int / rows / tp_degree as int;
    if 0 <= r < rows && 0 <= j < part {
        assert(byte_at(s.data, part, r, j) == s.data[r * part + j]);
    }
    vstd::arithmetic::div_mod::lemma_fundamental_div_mod(
        shape[0] as usize as int,
        tp_degree as int,
    );
    let own = shape[0] as usize as int / tp_degree as int;
    assert(own * tp_degree == tp_degree * own) by (nonlinear_arith);
}

/// Shards by columns put side by side give the matrix back: where the ranks divide the
/// rows' bytes evenly, every byte of the matrix stands in the shard of the one rank
/// that its column belongs to, at its row.
pub proof fn row_shards_side_by_side_give_the_matrix(
    name: Seq<char>,
    data: Seq<u8>,
    shape: Seq<u64>,
    quant: Quantization,
    tp_degree: usize,
    r: int,
    c: int,
)
    requires
        1 < tp_degree,
        shape.len() > 1,
        shape[1] as usize > 0,
        (data.len() as int / shape[1] as usize as int) % tp_degree as int == 0,
        0 <= r < shape[1] as usize,
        0 <= c < data.len() as int / shape[1] as usize as int,
        shard_of(name, data, shape, quant, ShardStrategy::Row, tp_degree, 0) is Ok,
    ensures
        ({
            let row_bytes = data.len() as int / shape[1] as usize as int;
            let part = row_bytes / tp_degree as int;
            let k = c / part;
            let s = shard_of(
                name,
                data,
                shape,
                quant,
                ShardStrategy::Row,
                tp_degree,
                k as usize,
            );
            &&& 0 <= k < tp_degree
            &&& s is Ok
            &&& s->Ok_0.data[r * part + c % part] == data[r * row_bytes + c]
        }),
{
    let rows = shape[1] as usize as int;
    let row_bytes = data.len() as int / rows;
    let degree = tp_degree as int;
    let part = row_bytes / degree;
    vstd::arithmetic::div_mod::lemma_fundamental_div_mod(row_bytes, degree);
    assert(part > 0) by (nonlinear_arith)
        requires
            row_bytes == degree * part,
            row_bytes > 0,
            degree > 0,
    ;
    let k = c / part;
    vstd::arithmetic::div_mod::lemma_fundamental_div_mod(c, part);
    assert(part * k == k * part) by (nonlinear_arith);
    assert(0 <= c % part < part);
    assert(0 <= k < degree) by (nonlinear_arith)
        requires
            c == k * part + c % part,
            0 <= c % part < part,
            0 <= c < degree * part,
            part > 0,
    ;
    row_shards_are_the_columns_of_their_rank(
        name,
        data,
        shape,
        quant,
        tp_degree,
        k as usize,
        r,
        c % part,
    );
}

/// A shard by rows has the rows of its rank, one after the other. Its last dimension
/// is its share of the rows, and the others stay.
pub proof fn column_shards_are_the_rows_of_their_rank(
    name: Seq<char>,
    data: Seq<u8>,
    shape: Seq<u64>,
    quant: Quantization,
    tp_degree: usize,
    k: usize,
    r: int,
    j: int,
)
    requires
        1 < tp_degree,
        k < tp_degree,
        shape.len() > 0,
        shape[shape.len() - 1] as usize > 0,
        shard_of(name, data, shape, quant, ShardStrategy::Column, tp_degree, k) is Ok,
    ensures
        ({
            let s = shard_of(name, data, shape, quant, ShardStrategy::Column, tp_degree, k)->Ok_0;
            let rows = shape[shape.len() - 1] as usize as int;
            let row_bytes = data.len() as int / rows;
            let own = rows / tp_degree as int;
            &&& own * tp_degree == rows
            &&& s.data.len() == own * row_bytes
            &&& 0 <= r < own && 0 <= j < row_bytes ==> s.data[r * row_bytes + j] == data[(k * own
                + r) * row_bytes + j]
            &&& s.shape.len() == shape.len()
            &&& s.shape[shape.len() - 1] * tp_degree == rows
            &&& forall|d: int| 0 <= d < shape.len() - 1 ==> #[trigger] s.shape[d] == shape[d]
        }),
{
    lemma_column_cells(name, data, shape, quant, ShardStrategy::Column, tp_degree, k);
    let s = shard_of(name, data, shape, quant, ShardStrategy::Column, tp_degree, k)->Ok_0;
    let rows = column_rows(shape) as int;
    let row_bytes = data.len() as int / rows;
    let own = rows / tp_degree as int;
    if 0 <= r < own && 0 <= j < row_bytes {
        assert(byte_at(s.data, row_bytes, r, j) == s.data[r * row_bytes + j]);
    }
    vstd::arithmetic::div_mod::lemma_fundamental_div_mod(rows, tp_degree as int);
    assert(own * tp_degree == tp_degree * own) by (nonlinear_arith);
}

/// Shards by rows put after each other give the matrix back: every row stands in the
/// shard of one rank.
pub proof fn column_shards_after_each_other_give_the_matrix(
    name: Seq<char>,
    data: Seq<u8>,
    shape: Seq<u64>,
    quant: Quantization,
    tp_degree: usize,
    r: int,
    j: int,
)
    requires
        1 < tp_degree,
        shape.len() > 0,
        0 <= r < shape[shape.len() - 1] as usize,
        0 <= j < data.len() as int / shape[shape.len() - 1] as usize as int,
        shard_of(name, data, shape, quant, ShardStrategy::Column, tp_degree, 0) is Ok,
    ensures
        ({
            let rows = shape[shape.len() - 1] as usize as int;
            let row_bytes = data.len() as int / rows;
            let own = rows / tp_degree as int;
            let k = r / own;
            let s = shard_of(
                name,
                data,
                shape,
                quant,
                ShardStrategy::Column,
                tp_degree,
                k as usize,
            );
            &&& 0 <= k < tp_degree
            &&& s is Ok
            &&& s->Ok_0.data[(r % own) * row_bytes + j] == data[r * row_bytes + j]
        }),
{
    let rows = shape[shape.len() - 1] as usize as int;
    let row_bytes = data.len() as int / rows;
    let degree = tp_degree as int;
    let own = rows / degree;
    column_shards_are_the_rows_of_their_rank(name, data, shape, quant, tp_degree, 0, 0, 0);
    assert(own > 0) by (nonlinear_arith)
        requires
            own * degree == rows,
            rows > 0,
            degree > 0,
    ;
    let k = r / own;
    vstd::arithmetic::div_mod::lemma_fundamental_div_mod(r, own);
    assert(own * k == k * own) by (nonlinear_arith);
    assert(0 <= r % own < own);
    assert(0 <= k < degree) by (nonlinear_arith)
        requires
            r == k * own + r % own,
            0 <= r % own < own,
            0 <= r < own * degree,
            own > 0,
    ;
    column_shards_are_the_rows_of_their_rank(
        name,
        data,
        shape,
        quant,
        tp_degree,
        k as usize,
        r % own,
        j,
    );
}

/// A shard is refused only where its rank would get no whole part: the rows or the
/// columns do not divide evenly, or the columns of a rank end within a block. Which
/// rank asks makes no difference.
pub proof fn shards_are_refused_where_uneven(
    name: Seq<char>,
    data: Seq<u8>,
    shape: Seq<u64>,
    quant: Quantization,
    strategy: ShardStrategy,
    tp_degree: usize,
    k: usize,
    other: usize,
)
    requires
        shape.len() > 0,
        tp_degree > 0,
    ensures
        ({
            let s = shard_of(name, data, shape, quant, strategy, tp_degree, k);
            let rows = shape[shape.len() - 1] as usize;
            let cols = shape[0] as usize;
            let block: int = if quant is F32 || quant is F16 {
                1
            } else {
                32
            };
            &&& s is Ok <==> {
                ||| tp_degree == 1
                ||| strategy is Replicated
                ||| strategy is Column && rows % tp_degree == 0
                ||| strategy is Row && cols % tp_degree == 0 && (cols as int / tp_degree as int)
                    % block == 0
            }
            &&& s is Ok <==> shard_of(name, data, shape, quant, strategy, tp_degree, other) is Ok
        }),
{
}

/// How a tensor is split, by its name.
pub open spec fn strategy_for(name: Seq<char>) -> ShardStrategy {
    if text::holds(name, "attention.wq"@) || text::holds(name, "attention.wk"@) || text::holds(
        name,
        "attention.wv"@,
    ) {
        ShardStrategy::Column
    } else if text::holds(name, "attention.wo"@) {
        ShardStrategy::Row
    } else if text::holds(name, "feed_forward.w1"@) || text::holds(name, "feed_forward.w3"@) {
        ShardStrategy::Column
    } else if text::holds(name, "feed_forward.w2"@) {
        ShardStrategy::Row
    } else if name == "output.weight"@ {
        ShardStrategy::Column
    } else {
        ShardStrategy::Replicated
    }
}

pub fn get_shard_strategy(name: &str) -> (s: ShardStrategy)
    ensures
        s == strategy_for(name@),
{
    if text_contains(name, "attention.wq") || text_contains(name, "attention.wk") || text_contains(
        name,
        "attention.wv",
    ) {
        ShardStrategy::Column
    } else if text_contains(name, "attention.wo") {
        ShardStrategy::Row
    } else if text_contains(name, "feed_forward.w1") || text_contains(name, "feed_forward.w3") {
        ShardStrategy::Column
    } else if text_contains(name, "feed_forward.w2") {
        ShardStrategy::Row
    } else if same_text(name, "output.weight") {
        ShardStrategy::Column
    } else {
        ShardStrategy::Replicated
    }
}

/// Whether a character occurs nowhere in a text.
spec fn lacks(s: Seq<char>, c: char) -> bool {
    forall|i: int| 0 <= i < s.len() ==> #[trigger] s[i] != c
}

proof fn lemma_lacking(s: Seq<char>, part: Seq<char>, k: int)
    requires
        0 <= k < part.len(),
        lacks(s, part[k]),
    ensures
        !text::holds(s, part),
{
    if text::holds(s, part) {
        let i = choose|i: int| #[trigger] text::stands_at(s, part, i);
        assert(s.subrange(i, i + part.len())[k] == s[i + k]);
    }
}

/// The name of a layer's weight lacks a character that is no digit and that neither its
/// front nor its end has.
proof fn lemma_layer_name_lacks(l: nat, part: Seq<char>, c: char)
    requires
        c < '0' || c > '9',
        lacks("layers."@, c),
        lacks(part, c),
    ensures
        lacks(model_loader::layer_name(l, part), c),
{
    text::written_numbers_are_read_back(l);
    let d = text::decimal(l);
    let name = model_loader::layer_name(l, part);
    assert forall|i: int| 0 <= i < name.len() implies #[trigger] name[i] != c by {
        if i < 7 {
            reveal_strlit("layers.");
            assert(name[i] == "layers."@[i]);
        } else {
            reveal_strlit("layers.");
            if i < 7 + d.len() {
                assert(name[i] == d[i - 7]);
            } else {
                assert(name[i] == part[i - 7 - d.len()]);
            }
        }
    }
}

proof fn lemma_layer_name_holds(l: nat, part: Seq<char>, needle: Seq<char>, from: int)
    requires
        0 <= from,
        from + needle.len() <= part.len(),
        part.subrange(from, from + needle.len()) == needle,
    ensures
        text::holds(model_loader::layer_name(l, part), needle),
{
    let front = "layers."@ + text::decimal(l);
    let name = model_loader::layer_name(l, part);
    let at = front.len() + from;
    assert(name.subrange(at, at + needle.len()) =~= part.subrange(from, from + needle.len()));
    assert(text::stands_at(name, needle, at));
}

/// The projections of queries, keys and values are split by the heads that they give,
/// and the output projection by the heads that it reads, in every layer.
pub proof fn attention_is_split_by_heads(l: nat)
    ensures
        strategy_for(model_loader::layer_name(l, ".attention.wq.weight"@))
            == ShardStrategy::Column,
        strategy_for(model_loader::layer_name(l, ".attention.wk.weight"@))
            == ShardStrategy::Column,
        strategy_for(model_loader::layer_name(l, ".attention.wv.weight"@))
            == ShardStrategy::Column,
        strategy_for(model_loader::layer_name(l, ".attention.wo.weight"@)) == ShardStrategy::Row,
{
    reveal_strlit("layers.");
    reveal_strlit(".attention.wq.weight");
    reveal_strlit(".attention.wk.weight");
    reveal_strlit(".attention.wv.weight");
    reveal_strlit(".attention.wo.weight");
    reveal_strlit("attention.wq");
    reveal_strlit("attention.wk");
    reveal_strlit("attention.wv");
    reveal_strlit("attention.wo");
    let wo = ".attention.wo.weight"@;
    assert(".attention.wq.weight"@.subrange(1, 13) =~= "attention.wq"@);
    assert(".attention.wk.weight"@.subrange(1, 13) =~= "attention.wk"@);
    assert(".attention.wv.weight"@.subrange(1, 13) =~= "attention.wv"@);
    assert(wo.subrange(1, 13) =~= "attention.wo"@);
    lemma_layer_name_holds(l, ".attention.wq.weight"@, "attention.wq"@, 1);
    lemma_layer_name_holds(l, ".attention.wk.weight"@, "attention.wk"@, 1);
    lemma_layer_name_holds(l, ".attention.wv.weight"@, "attention.wv"@, 1);
    lemma_layer_name_holds(l, wo, "attention.wo"@, 1);
    let name = model_loader::layer_name(l, wo);
    lemma_layer_name_lacks(l, wo, 'q');
    lemma_layer_name_lacks(l, wo, 'k');
    lemma_layer_name_lacks(l, wo, 'v');
    lemma_lacking(name, "attention.wq"@, 11);
    lemma_lacking(name, "attention.wk"@, 11);
    lemma_lacking(name, "attention.wv"@, 11);
}

/// The name of a feed-forward weight names no attention weight.
proof fn lemma_no_attention(l: nat, part: Seq<char>)
    requires
        lacks(part, 'n'),
    ensures
        ({
            let name = model_loader::layer_name(l, part);
            &&& !text::holds(name, "attention.wq"@)
            &&& !text::holds(name, "attention.wk"@)
            &&& !text::holds(name, "attention.wv"@)
            &&& !text::holds(name, "attention.wo"@)
        }),
{
    reveal_strlit("layers.");
    reveal_strlit("attention.wq");
    reveal_strlit("attention.wk");
    reveal_strlit("attention.wv");
    reveal_strlit("attention.wo");
    let name = model_loader::layer_name(l, part);
    lemma_layer_name_lacks(l, part, 'n');
    lemma_lacking(name, "attention.wq"@, 4);
    lemma_lacking(name, "attention.wk"@, 4);
    lemma_lacking(name, "attention.wv"@, 4);
    lemma_lacking(name, "attention.wo"@, 4);
}

/// Gate and up projection are split by the values that they give, and the down
/// projection by the values that it reads, in every layer.
pub proof fn feed_forward_is_split_by_values(l: nat)
    ensures
        strategy_for(model_loader::layer_name(l, ".feed_forward.w1.weight"@))
            == ShardStrategy::Column,
        strategy_for(model_loader::layer_name(l, ".feed_forward.w3.weight"@))
            == ShardStrategy::Column,
        strategy_for(model_loader::layer_name(l, ".feed_forward.w2.weight"@))
            == ShardStrategy::Row,
{
    reveal_strlit("layers.");
    reveal_strlit(".feed_forward.w1.weight");
    reveal_strlit(".feed_forward.w2.weight");
    reveal_strlit(".feed_forward.w3.weight");
    reveal_strlit("feed_forward.w1");
    reveal_strlit("feed_forward.w2");
    reveal_strlit("feed_forward.w3");
    let w1 = ".feed_forward.w1.weight"@;
    let w2 = ".feed_forward.w2.weight"@;
    let w3 = ".feed_forward.w3.weight"@;
    assert(w1.subrange(1, 16) =~= "feed_forward.w1"@);
    assert(w2.subrange(1, 16) =~= "feed_forward.w2"@);
    assert(w3.subrange(1, 16) =~= "feed_forward.w3"@);
    lemma_layer_name_holds(l, w1, "feed_forward.w1"@, 1);
    lemma_layer_name_holds(l, w2, "feed_forward.w2"@, 1);
    lemma_layer_name_holds(l, w3, "feed_forward.w3"@, 1);
    lemma_no_attention(l, w1);
    lemma_no_attention(l, w2);
    lemma_no_attention(l, w3);
    let name = model_loader::layer_name(l, w2);
    text::written_numbers_are_read_back(l);
    let d = text::decimal(l);
    assert forall|i: int| 0 <= i < name.len() && #[trigger] name[i] == '_' implies i == 7 + d.len()
        + 5 by {
        if 7 <= i < 7 + d.len() {
            assert(name[i] == d[i - 7]);
        } else if i < 7 {
            assert(name[i] == "layers."@[i]);
        } else {
            assert(name[i] == w2[i - 7 - d.len()]);
        }
    }
    let after = 7 + d.len() as int;
    assert(name[after + 15] == w2[15]);
    if text::holds(name, "feed_forward.w1"@) {
        let i = choose|i: int| #[trigger] text::stands_at(name, "feed_forward.w1"@, i);
        let sub = name.subrange(i, i + 15);
        assert(sub[4] == '_' && sub[14] == '1');
        assert(name[i + 4] == '_');
    }
    if text::holds(name, "feed_forward.w3"@) {
        let i = choose|i: int| #[trigger] text::stands_at(name, "feed_forward.w3"@, i);
        let sub = name.subrange(i, i + 15);
        assert(sub[4] == '_' && sub[14] == '3');
        assert(name[i + 4] == '_');
    }
}

} // verus!
