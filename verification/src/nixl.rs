//! NIXL-inspired KV-cache transfer.
//!
//! Three layers move cold cache blocks between nodes:
//!
//! 1. **DMA block manager**: serializes KV-cache blocks into a portable wire
//!    format and reads them back.
//! 2. **Node registry**: the peers of the fabric and their memory pressure.
//! 3. **Cache transfer agent**: hands evicted blocks to the least loaded peer
//!    instead of dropping them.

use std::collections::BTreeMap;
use vstd::prelude::*;
use crate::bytes;
use crate::bytes::{push_le, read_le};
use crate::radix_cache::KvCacheHandle;
use crate::scalar::F32;
use crate::text;
use crate::text::text_with_number;

verus! {

broadcast use vstd::std_specs::btree::group_btree_axioms;

// ---------------------------------------------------------------------------
// Wire format
// ---------------------------------------------------------------------------

/// The length of the header of a block on the wire.
///
/// Layout (little-endian):
/// ```text
/// [block_id: u64][token_len: u32][byte_len: u32][payload: byte_len bytes]
/// ```
pub const WIRE_HEADER_LEN: usize = 16;

/// A block on the wire. The two lengths are 32 bits wide.
pub open spec fn wire_of(handle: KvCacheHandle, payload: Seq<u8>) -> Seq<u8> {
    bytes::le_bytes(handle.block_id as nat, 8) + bytes::le_bytes(
        (handle.token_len as u32) as nat,
        4,
    ) + bytes::le_bytes(((payload.len() as usize) as u32) as nat, 4) + payload
}

/// The handle that a wire buffer announces.
pub open spec fn wire_handle(buf: Seq<u8>) -> KvCacheHandle {
    KvCacheHandle {
        block_id: bytes::le_value(buf.subrange(0, 8)) as u64,
        token_len: bytes::le_value(buf.subrange(8, 12)) as usize,
    }
}

/// The payload length that a wire buffer announces.
pub open spec fn wire_payload_len(buf: Seq<u8>) -> nat {
    bytes::le_value(buf.subrange(12, 16))
}

/// Whether a wire buffer holds its header and the announced payload.
pub open spec fn wire_complete(buf: Seq<u8>) -> bool {
    buf.len() >= WIRE_HEADER_LEN && buf.len() >= WIRE_HEADER_LEN + wire_payload_len(buf)
}

/// Serialise a KV-block handle and its raw bytes into the wire format.
pub fn serialize_block(handle: KvCacheHandle, payload: &[u8]) -> (buf: Vec<u8>)
    ensures
        buf@ == wire_of(handle, payload@),
        buf@.len() == WIRE_HEADER_LEN + payload@.len(),
{
    let mut buf: Vec<u8> = Vec::new();
    push_le(&mut buf, handle.block_id, 8);
    push_le(&mut buf, handle.token_len as u32 as u64, 4);
    push_le(&mut buf, payload.len() as u32 as u64, 4);
    append_bytes(&mut buf, payload);
    proof {
        bytes::lemma_le_bytes_len(handle.block_id as nat, 8);
        bytes::lemma_le_bytes_len((handle.token_len as u32) as nat, 4);
        bytes::lemma_le_bytes_len(((payload@.len() as usize) as u32) as nat, 4);
        assert(buf@ =~= wire_of(handle, payload@));
    }
    buf
}

/// Deserialise a wire buffer: the handle and the payload, or `None` if the
/// buffer is malformed or too short.
pub fn deserialize_block(buf: &[u8]) -> (r: Option<(KvCacheHandle, &[u8])>)
    ensures
        r is Some <==> wire_complete(buf@),
        r is Some ==> (r->0).0 == wire_handle(buf@) && (r->0).1@ == buf@.subrange(
            WIRE_HEADER_LEN as int,
            WIRE_HEADER_LEN + wire_payload_len(buf@),
        ),
{
    if buf.len() < WIRE_HEADER_LEN {
        return None;
    }
    let block_id: u64 = read_le(buf, 0, 8);
    let token_len: usize = read_le(buf, 8, 4) as usize;
    let byte_len: usize = read_le(buf, 12, 4) as usize;
    proof {
        bytes::lemma_pow256_values();
    }
    if buf.len() - WIRE_HEADER_LEN < byte_len {
        return None;
    }
    let handle = KvCacheHandle { block_id, token_len };
    let payload: &[u8] = vstd::slice::slice_subrange(
        buf,
        WIRE_HEADER_LEN,
        WIRE_HEADER_LEN + byte_len,
    );
    Some((handle, payload))
}

/// What a read gives back of a write: a serialized block reads back as the same
/// handle and payload, as long as the two lengths fit the wire format.
pub proof fn wire_round_trip(handle: KvCacheHandle, payload: Seq<u8>)
    requires
        handle.token_len <= u32::MAX,
        payload.len() <= u32::MAX,
    ensures
        ({
            let buf = wire_of(handle, payload);
            &&& wire_complete(buf)
            &&& wire_handle(buf) == handle
            &&& buf.subrange(
                WIRE_HEADER_LEN as int,
                WIRE_HEADER_LEN + wire_payload_len(buf),
            ) == payload
        }),
{
    lemma_wire_fields(handle, payload);
    let buf = wire_of(handle, payload);
    assert(buf.subrange(16, 16 + payload.len() as int) =~= payload);
}

/// The fields of a serialized block, whatever its lengths.
proof fn lemma_wire_fields(handle: KvCacheHandle, payload: Seq<u8>)
    ensures
        ({
            let buf = wire_of(handle, payload);
            &&& buf.len() == WIRE_HEADER_LEN + payload.len()
            &&& wire_handle(buf) == (KvCacheHandle {
                block_id: handle.block_id,
                token_len: (handle.token_len as u32) as usize,
            })
            &&& wire_payload_len(buf) == ((payload.len() as usize) as u32)
            &&& buf.skip(WIRE_HEADER_LEN as int) == payload
        }),
{
    let buf = wire_of(handle, payload);
    let a = bytes::le_bytes(handle.block_id as nat, 8);
    let b = bytes::le_bytes((handle.token_len as u32) as nat, 4);
    let c = bytes::le_bytes(((payload.len() as usize) as u32) as nat, 4);
    bytes::lemma_pow256_values();
    bytes::le_round_trip(handle.block_id as nat, 8);
    bytes::le_round_trip((handle.token_len as u32) as nat, 4);
    bytes::le_round_trip(((payload.len() as usize) as u32) as nat, 4);
    assert(buf.subrange(0, 8) =~= a);
    assert(buf.subrange(8, 12) =~= b);
    assert(buf.subrange(12, 16) =~= c);
    assert(buf.skip(16) =~= payload);
}

/// A serialized block is always complete.
pub proof fn serialized_blocks_are_complete(handle: KvCacheHandle, payload: Seq<u8>)
    requires
        payload.len() <= usize::MAX,
    ensures
        wire_complete(wire_of(handle, payload)),
{
    lemma_wire_fields(handle, payload);
    let wide = payload.len() as usize;
    let narrow = wide as u32;
    assert(narrow <= wide) by (bit_vector)
        requires
            narrow == wide as u32,
    ;
}

/// Appends some bytes.
fn append_bytes(buf: &mut Vec<u8>, more: &[u8])
    ensures
        final(buf)@ == old(buf)@ + more@,
{
    let ghost before = buf@;
    let mut i: usize = 0;
    while i < more.len()
        invariant
            i <= more@.len(),
            buf@ == before + more@.take(i as int),
        decreases more@.len() - i,
    {
        buf.push(more[i]);
        i = i + 1;
        assert(buf@ =~= before + more@.take(i as int));
    }
    assert(more@.take(i as int) =~= more@);
}

// ---------------------------------------------------------------------------
// DMA Block Manager
// ---------------------------------------------------------------------------

/// Telemetry counters for the DMA subsystem. A count that reaches the largest
/// number stays there.
#[derive(Debug, Clone, Copy, PartialEq, Eq, Structural)]
pub struct DmaStats {
    pub regions_allocated: usize,
    pub blocks_serialized: usize,
    pub blocks_deserialized: usize,
    pub bytes_transferred: u64,
}

impl Default for DmaStats {
    fn default() -> (s: Self)
        ensures
            s == (DmaStats {
                regions_allocated: 0,
                blocks_serialized: 0,
                blocks_deserialized: 0,
                bytes_transferred: 0,
            }),
    {
        DmaStats {
            regions_allocated: 0,
            blocks_serialized: 0,
            blocks_deserialized: 0,
            bytes_transferred: 0,
        }
    }
}

/// Manages a pool of registered memory regions for zero-copy block transfer.
///
/// Each region can hold exactly one KV-block. The pool grows when all regions
/// are in use; the region given back last is handed out first.
#[derive(Debug)]
pub struct DmaBlockManager {
    block_bytes: usize,
    free_pool: Vec<usize>,
    regions: Vec<Vec<u8>>,
    stats: DmaStats,
}

/// A manager as seen from outside.
pub struct DmaModel {
    pub block_bytes: usize,
    pub free: Seq<usize>,
    pub regions: Seq<Seq<u8>>,
    pub stats: DmaStats,
}

/// `a + b`, but never more than the largest number.
pub open spec fn plus_u64(a: u64, b: nat) -> u64 {
    if a + b > u64::MAX {
        u64::MAX
    } else {
        (a + b) as u64
    }
}

/// `n` zero bytes.
pub open spec fn zeros(n: nat) -> Seq<u8> {
    Seq::new(n, |i: int| 0u8)
}

/// The smaller of two lengths.
pub open spec fn shorter(a: nat, b: nat) -> nat {
    if a < b {
        a
    } else {
        b
    }
}

/// The manager after a region was taken, and the region.
pub open spec fn dma_acquired(m: DmaModel) -> (DmaModel, int) {
    if m.free.len() == 0 {
        (
            DmaModel {
                regions: m.regions.push(zeros(m.block_bytes as nat)),
                stats: DmaStats {
                    regions_allocated: (m.regions.len() + 1) as usize,
                    ..m.stats
                },
                ..m
            },
            m.regions.len() as int,
        )
    } else {
        (DmaModel { free: m.free.drop_last(), ..m }, m.free.last() as int)
    }
}

/// The manager after `payload` was written into region `idx`: cut to the size
/// of a block, or filled up with zeros.
pub open spec fn dma_written(m: DmaModel, idx: int, payload: Seq<u8>) -> DmaModel {
    let n = shorter(payload.len(), m.block_bytes as nat);
    DmaModel {
        regions: m.regions.update(
            idx,
            payload.take(n as int) + zeros((m.block_bytes - n) as nat),
        ),
        stats: DmaStats {
            blocks_serialized: crate::speculative::plus(m.stats.blocks_serialized, 1),
            bytes_transferred: plus_u64(m.stats.bytes_transferred, payload.len()),
            ..m.stats
        },
        ..m
    }
}

/// The manager after `payload` was received into region `idx`: what lies beyond
/// the payload stays as it was.
pub open spec fn dma_received(m: DmaModel, idx: int, payload: Seq<u8>) -> DmaModel {
    let n = shorter(payload.len(), m.block_bytes as nat);
    DmaModel {
        regions: m.regions.update(
            idx,
            payload.take(n as int) + m.regions[idx].skip(n as int),
        ),
        stats: DmaStats {
            blocks_deserialized: crate::speculative::plus(m.stats.blocks_deserialized, 1),
            bytes_transferred: plus_u64(m.stats.bytes_transferred, n),
            ..m.stats
        },
        ..m
    }
}

impl View for DmaBlockManager {
    type V = DmaModel;

    closed spec fn view(&self) -> DmaModel {
        DmaModel {
            block_bytes: self.block_bytes,
            free: self.free_pool@,
            regions: self.regions@.map_values(|r: Vec<u8>| r@),
            stats: self.stats,
        }
    }
}

impl DmaModel {
    /// Every region has the size of a block, free regions exist, and the
    /// regions are counted right.
    pub open spec fn wf(self) -> bool {
        &&& forall|i: int|
            0 <= i < self.regions.len() ==> (#[trigger] self.regions[i]).len() == self.block_bytes
        &&& forall|i: int|
            0 <= i < self.free.len() ==> (#[trigger] self.free[i]) < self.regions.len()
        &&& self.stats.regions_allocated == self.regions.len()
    }
}

/// Overwriting one region with a block keeps the manager in order.
proof fn lemma_overwritten_regions(a: DmaModel, b: DmaModel, idx: int, block: Seq<u8>)
    requires
        a.wf(),
        0 <= idx < a.regions.len(),
        block.len() == a.block_bytes,
        b.regions == a.regions.update(idx, block),
        b.block_bytes == a.block_bytes,
        b.free == a.free,
        b.stats.regions_allocated == a.stats.regions_allocated,
    ensures
        b.wf(),
{
    assert forall|i: int| 0 <= i < b.regions.len() implies (#[trigger] b.regions[i]).len()
        == b.block_bytes by {
        if i != idx {
            assert(b.regions[i] == a.regions[i]);
        }
    }
    assert forall|i: int| 0 <= i < b.free.len() implies (#[trigger] b.free[i])
        < b.regions.len() by {
        assert(b.free[i] == a.free[i]);
    }
}

/// A vector of `n` zero bytes.
fn zeroed(n: usize) -> (v: Vec<u8>)
    ensures
        v@ == zeros(n as nat),
{
    let mut v: Vec<u8> = Vec::with_capacity(n);
    let mut i: usize = 0;
    while i < n
        invariant
            i <= n,
            v@ == zeros(i as nat),
        decreases n - i,
    {
        v.push(0);
        i = i + 1;
        assert(v@ =~= zeros(i as nat));
    }
    v
}

impl DmaBlockManager {
    /// Create a new manager pre-populating `pool_size` registered regions.
    pub fn new(block_bytes: usize, pool_size: usize) -> (m: Self)
        ensures
            m@.wf(),
            m@ == (DmaModel {
                block_bytes,
                free: Seq::new(pool_size as nat, |i: int| i as usize),
                regions: Seq::new(pool_size as nat, |i: int| zeros(block_bytes as nat)),
                stats: DmaStats {
                    regions_allocated: pool_size,
                    blocks_serialized: 0,
                    blocks_deserialized: 0,
                    bytes_transferred: 0,
                },
            }),
    {
        let mut regions: Vec<Vec<u8>> = Vec::with_capacity(pool_size);
        let mut free_pool: Vec<usize> = Vec::with_capacity(pool_size);
        let mut i: usize = 0;
        while i < pool_size
            invariant
                i <= pool_size,
                free_pool@ == Seq::new(i as nat, |i: int| i as usize),
                regions@.len() == i,
                forall|k: int| 0 <= k < i ==> (#[trigger] regions@[k])@ == zeros(block_bytes as nat),
            decreases pool_size - i,
        {
            regions.push(zeroed(block_bytes));
            free_pool.push(i);
            i = i + 1;
            assert(free_pool@ =~= Seq::new(i as nat, |i: int| i as usize));
        }
        let m = DmaBlockManager {
            block_bytes,
            free_pool,
            regions,
            stats: DmaStats {
                regions_allocated: pool_size,
                blocks_serialized: 0,
                blocks_deserialized: 0,
                bytes_transferred: 0,
            },
        };
        assert(m@.regions =~= Seq::new(pool_size as nat, |i: int| zeros(block_bytes as nat)));
        m
    }

    /// Acquire a free region index, growing the pool if necessary.
    pub fn acquire(&mut self) -> (idx: usize)
        requires
            old(self)@.wf(),
        ensures
            final(self)@.wf(),
            final(self)@ == dma_acquired(old(self)@).0,
            idx == dma_acquired(old(self)@).1,
            idx < final(self)@.regions.len(),
    {
        match self.free_pool.pop() {
            Some(idx) => {
                assert(self@.regions =~= old(self)@.regions);
                assert(old(self)@.free[old(self)@.free.len() - 1] == idx);
                assert forall|i: int| 0 <= i < self@.free.len() implies (#[trigger] self@.free[i])
                    < self@.regions.len() by {
                    assert(self@.free[i] == old(self)@.free[i]);
                }
                idx
            },
            None => {
                let idx: usize = self.regions.len();
                self.regions.push(zeroed(self.block_bytes));
                self.stats.regions_allocated = self.regions.len();
                assert(self@.regions =~= old(self)@.regions.push(zeros(self.block_bytes as nat)));
                idx
            },
        }
    }

    /// Release a region back to the free pool.
    pub fn release(&mut self, idx: usize)
        requires
            old(self)@.wf(),
            idx < old(self)@.regions.len(),
        ensures
            final(self)@.wf(),
            final(self)@ == (DmaModel { free: old(self)@.free.push(idx), ..old(self)@ }),
    {
        self.free_pool.push(idx);
        assert(self@.regions =~= old(self)@.regions);
        assert forall|i: int| 0 <= i < self@.free.len() implies (#[trigger] self@.free[i])
            < self@.regions.len() by {
            if i < old(self)@.free.len() {
                assert(self@.free[i] == old(self)@.free[i]);
            }
        }
    }

    /// Write `payload` into region `idx` and return the wire buffer.
    ///
    /// If `payload` is shorter than a block, the remainder is zeroed; if it is
    /// longer, it is cut.
    pub fn write_and_serialize(&mut self, idx: usize, handle: KvCacheHandle, payload: &[u8]) -> (
    wire: Vec<u8>)
        requires
            old(self)@.wf(),
            idx < old(self)@.regions.len(),
        ensures
            final(self)@.wf(),
            final(self)@ == dma_written(old(self)@, idx as int, payload@),
            wire@ == wire_of(
                handle,
                payload@.take(shorter(payload@.len(), old(self)@.block_bytes as nat) as int),
            ),
            wire@.len() == WIRE_HEADER_LEN + shorter(
                payload@.len(),
                old(self)@.block_bytes as nat,
            ),
    {
        let copy_len: usize = if payload.len() < self.block_bytes {
            payload.len()
        } else {
            self.block_bytes
        };
        let cut: &[u8] = vstd::slice::slice_subrange(payload, 0, copy_len);
        let mut region: Vec<u8> = Vec::with_capacity(self.block_bytes);
        append_bytes(&mut region, cut);
        append_bytes(&mut region, &zeroed(self.block_bytes - copy_len));
        self.regions.set(idx, region);
        self.stats.blocks_serialized = self.stats.blocks_serialized.saturating_add(1);
        self.stats.bytes_transferred = self.stats.bytes_transferred.saturating_add(
            payload.len() as u64,
        );
        proof {
            assert(cut@ =~= payload@.take(copy_len as int));
            let n = copy_len as nat;
            let filled = payload@.take(n as int) + zeros((self.block_bytes - n) as nat);
            assert(region@ =~= filled);
            assert(self@.regions =~= old(self)@.regions.update(idx as int, filled));
            lemma_overwritten_regions(old(self)@, self@, idx as int, filled);
        }
        serialize_block(handle, cut)
    }

    /// Deserialise a wire buffer into region `idx`: the handle and how many
    /// bytes were kept. A malformed buffer changes nothing.
    pub fn receive_into(&mut self, idx: usize, wire: &[u8]) -> (r: Option<(KvCacheHandle, usize)>)
        requires
            old(self)@.wf(),
            idx < old(self)@.regions.len(),
        ensures
            final(self)@.wf(),
            r is Some <==> wire_complete(wire@),
            r is None ==> final(self)@ == old(self)@,
            r is Some ==> {
                let payload = wire@.subrange(
                    WIRE_HEADER_LEN as int,
                    WIRE_HEADER_LEN + wire_payload_len(wire@),
                );
                &&& (r->0).0 == wire_handle(wire@)
                &&& (r->0).1 == shorter(payload.len(), old(self)@.block_bytes as nat)
                &&& final(self)@ == dma_received(old(self)@, idx as int, payload)
            },
    {
        match deserialize_block(wire) {
            None => None,
            Some((handle, payload)) => {
                let copy_len: usize = if payload.len() < self.block_bytes {
                    payload.len()
                } else {
                    self.block_bytes
                };
                let mut region: Vec<u8> = Vec::with_capacity(self.block_bytes);
                append_bytes(&mut region, vstd::slice::slice_subrange(payload, 0, copy_len));
                assert(old(self)@.regions[idx as int].len() == self.block_bytes);
                append_bytes(
                    &mut region,
                    vstd::slice::slice_subrange(
                        self.regions[idx].as_slice(),
                        copy_len,
                        self.block_bytes,
                    ),
                );
                self.regions.set(idx, region);
                self.stats.blocks_deserialized = self.stats.blocks_deserialized.saturating_add(1);
                self.stats.bytes_transferred = self.stats.bytes_transferred.saturating_add(
                    copy_len as u64,
                );
                proof {
                    let filled = payload@.take(copy_len as int) + old(self)@.regions[idx as int].skip(
                        copy_len as int,
                    );
                    assert(region@ =~= filled);
                    assert(self@.regions =~= old(self)@.regions.update(idx as int, filled));
                    lemma_overwritten_regions(old(self)@, self@, idx as int, filled);
                }
                Some((handle, copy_len))
            },
        }
    }

    /// Read the raw bytes of region `idx`.
    pub fn region(&self, idx: usize) -> (r: &[u8])
        requires
            idx < self@.regions.len(),
        ensures
            r@ == self@.regions[idx as int],
    {
        self.regions[idx].as_slice()
    }

    pub fn stats(&self) -> (s: &DmaStats)
        ensures
            *s == self@.stats,
    {
        &self.stats
    }

    pub fn pool_size(&self) -> (n: usize)
        ensures
            n == self@.regions.len(),
    {
        self.regions.len()
    }

    pub fn free_regions(&self) -> (n: usize)
        ensures
            n == self@.free.len(),
    {
        self.free_pool.len()
    }
}

/// Taking a region and giving it back leaves the pool as it was, but for a
/// region that had to be added.
pub proof fn acquire_then_release(m: DmaModel)
    requires
        m.wf(),
    ensures
        ({
            let (taken, idx) = dma_acquired(m);
            let free = taken.free.push(idx as usize);
            &&& m.free.len() > 0 ==> free == m.free && taken.regions == m.regions
            &&& m.free.len() == 0 ==> free == seq![m.regions.len() as usize]
                && taken.regions.drop_last() == m.regions
        }),
{
    let (taken, idx) = dma_acquired(m);
    if m.free.len() > 0 {
        assert(m.free[m.free.len() - 1] < m.regions.len());
        assert(taken.free.push(idx as usize) =~= m.free);
    } else {
        assert(taken.regions.drop_last() =~= m.regions);
        assert(taken.free.push(idx as usize) =~= seq![m.regions.len() as usize]);
    }
}

// ---------------------------------------------------------------------------
// Node Registry
// ---------------------------------------------------------------------------

/// Uniquely identifies a node of the fabric.
#[derive(Debug, Clone, Copy, PartialEq, Eq, PartialOrd, Ord, Hash, Structural)]
pub struct NixlNodeId(pub u32);

impl NixlNodeId {
    pub open spec fn text(self) -> Seq<char> {
        "node-"@ + text::decimal(self.0 as nat)
    }

    pub fn to_string(&self) -> (s: String)
        ensures
            s@ == self.text(),
    {
        proof {
            reveal_strlit("");
            assert("node-"@ + text::decimal(self.0 as nat) + ""@ =~= self.text());
        }
        text_with_number("node-", self.0 as u64, "")
    }
}

/// Snapshot of a peer's current memory pressure.
#[derive(Debug, Clone, Copy)]
pub struct PeerStatus {
    pub node_id: NixlNodeId,
    /// Fraction of capacity currently in use, from zero to one.
    pub utilisation: F32,
    /// Tokens of free capacity this peer can accept.
    pub free_tokens: usize,
    /// Approximate round trip to this peer, in microseconds.
    pub rtt_micros: u64,
}

/// The registry where all nodes register on startup. The nodes are numbered in
/// the order in which they came.
#[derive(Debug, Clone)]
pub struct NodeRegistry {
    peers: Vec<PeerStatus>,
}

impl View for NodeRegistry {
    type V = Seq<PeerStatus>;

    closed spec fn view(&self) -> Seq<PeerStatus> {
        self.peers@
    }
}

/// A node that has just registered.
pub open spec fn fresh_peer(id: u32, capacity_tokens: usize) -> PeerStatus {
    PeerStatus {
        node_id: NixlNodeId(id),
        utilisation: F32 { bits: 0 },
        free_tokens: capacity_tokens,
        rtt_micros: (50 + 10 * id) as u64,
    }
}

/// Whether a node may be handed `needed` tokens by node `exclude`.
pub open spec fn is_candidate(p: PeerStatus, exclude: NixlNodeId, needed: usize) -> bool {
    p.node_id != exclude && p.free_tokens >= needed
}

/// Whether the loads of the candidates can be compared: one alone is not
/// compared with any other.
pub open spec fn comparable(peers: Seq<PeerStatus>, exclude: NixlNodeId, needed: usize) -> bool {
    forall|i: int, j: int|
        0 <= i < j < peers.len() && #[trigger] is_candidate(peers[i], exclude, needed)
            && #[trigger] is_candidate(peers[j], exclude, needed) ==> !peers[i].utilisation.nan()
            && !peers[j].utilisation.nan()
}

/// The least loaded candidate among the first `n` nodes: of equals the one that
/// registered first.
pub open spec fn least_loaded(
    peers: Seq<PeerStatus>,
    exclude: NixlNodeId,
    needed: usize,
    n: nat,
) -> Option<int>
    decreases n,
{
    if n == 0 {
        None
    } else {
        let k = n - 1;
        let before = least_loaded(peers, exclude, needed, k as nat);
        if is_candidate(peers[k], exclude, needed) && (before is None
            || peers[k].utilisation.rank() < peers[before->0].utilisation.rank()) {
            Some(k)
        } else {
            before
        }
    }
}

/// The node that is handed `needed` tokens, if there is one.
pub open spec fn peer_for(
    peers: Seq<PeerStatus>,
    exclude: NixlNodeId,
    needed: usize,
) -> Option<PeerStatus> {
    match least_loaded(peers, exclude, needed, peers.len()) {
        None => None,
        Some(i) => Some(peers[i]),
    }
}

proof fn lemma_least_loaded(peers: Seq<PeerStatus>, exclude: NixlNodeId, needed: usize, n: nat)
    requires
        n <= peers.len(),
    ensures
        ({
            let best = least_loaded(peers, exclude, needed, n);
            &&& best is None <==> forall|i: int|
                0 <= i < n ==> !#[trigger] is_candidate(peers[i], exclude, needed)
            &&& best is Some ==> 0 <= best->0 < n && is_candidate(
                peers[best->0],
                exclude,
                needed,
            ) && (forall|i: int|
                0 <= i < n && #[trigger] is_candidate(peers[i], exclude, needed)
                    ==> peers[i].utilisation.rank() >= peers[best->0].utilisation.rank())
        }),
    decreases n,
{
    if n > 0 {
        let k = n - 1;
        lemma_least_loaded(peers, exclude, needed, k as nat);
        let before = least_loaded(peers, exclude, needed, k as nat);
        let best = least_loaded(peers, exclude, needed, n);
        if best is None {
            assert forall|i: int| 0 <= i < n implies !#[trigger] is_candidate(
                peers[i],
                exclude,
                needed,
            ) by {}
        } else {
            assert(is_candidate(peers[best->0], exclude, needed));
        }
    }
}

/// A block goes to a node with room for it that is no more loaded than any
/// other such node, and never back to the sender; there is none only if no
/// other node has room.
pub proof fn handoff_picks_a_least_loaded_peer(
    peers: Seq<PeerStatus>,
    exclude: NixlNodeId,
    needed: usize,
)
    ensures
        match peer_for(peers, exclude, needed) {
            None => forall|i: int|
                0 <= i < peers.len() ==> !#[trigger] is_candidate(peers[i], exclude, needed),
            Some(p) => peers.contains(p) && is_candidate(p, exclude, needed) && forall|i: int|
                0 <= i < peers.len() && #[trigger] is_candidate(peers[i], exclude, needed)
                    ==> peers[i].utilisation.rank() >= p.utilisation.rank(),
        },
{
    lemma_least_loaded(peers, exclude, needed, peers.len());
}

impl NodeRegistry {
    /// Every node stands at the place of its number.
    pub open spec fn wf(&self) -> bool {
        &&& self@.len() <= u32::MAX
        &&& forall|i: int| 0 <= i < self@.len() ==> (#[trigger] self@[i]).node_id.0 == i
    }

    pub fn new() -> (r: Self)
        ensures
            r.wf(),
            r@.len() == 0,
    {
        NodeRegistry { peers: Vec::new() }
    }

    /// Register a new node and return its assigned ID.
    pub fn register(&mut self, capacity_tokens: usize) -> (id: NixlNodeId)
        requires
            old(self).wf(),
            old(self)@.len() < u32::MAX,
        ensures
            final(self).wf(),
            id.0 == old(self)@.len(),
            final(self)@ == old(self)@.push(fresh_peer(id.0, capacity_tokens)),
    {
        let id = NixlNodeId(self.peers.len() as u32);
        self.peers.push(
            PeerStatus {
                node_id: id,
                utilisation: F32::from_bits(0),
                free_tokens: capacity_tokens,
                rtt_micros: 50 + 10 * id.0 as u64,
            },
        );
        id
    }

    /// Update a node's current memory utilisation. A node that is not
    /// registered is passed over.
    pub fn heartbeat(&mut self, id: NixlNodeId, utilisation: F32, free_tokens: usize)
        requires
            old(self).wf(),
        ensures
            final(self).wf(),
            id.0 >= old(self)@.len() ==> final(self)@ == old(self)@,
            id.0 < old(self)@.len() ==> final(self)@ == old(self)@.update(
                id.0 as int,
                PeerStatus { utilisation, free_tokens, ..old(self)@[id.0 as int] },
            ),
    {
        if (id.0 as u64) < self.peers.len() as u64 {
            let at: usize = id.0 as usize;
            let peer: PeerStatus = self.peers[at];
            self.peers.set(
                at,
                PeerStatus {
                    node_id: peer.node_id,
                    utilisation,
                    free_tokens,
                    rtt_micros: peer.rtt_micros,
                },
            );
        }
    }

    /// A snapshot of all peers except `exclude`, in the order in which they
    /// registered.
    pub fn peers_except(&self, exclude: NixlNodeId) -> (peers: Vec<PeerStatus>)
        ensures
            peers@ == self@.filter(|p: PeerStatus| p.node_id != exclude),
    {
        let mut peers: Vec<PeerStatus> = Vec::new();
        let ghost keep = |p: PeerStatus| p.node_id != exclude;
        let mut i: usize = 0;
        while i < self.peers.len()
            invariant
                i <= self.peers@.len(),
                keep == (|p: PeerStatus| p.node_id != exclude),
                peers@ == self.peers@.take(i as int).filter(keep),
            decreases self.peers@.len() - i,
        {
            proof {
                reveal(Seq::filter);
                assert(self.peers@.take(i + 1).drop_last() =~= self.peers@.take(i as int));
            }
            if self.peers[i].node_id.0 != exclude.0 {
                peers.push(self.peers[i]);
            }
            i = i + 1;
        }
        assert(self.peers@.take(i as int) =~= self.peers@);
        peers
    }

    /// Select the least-loaded peer that can accept `needed_tokens`.
    pub fn best_peer(&self, exclude: NixlNodeId, needed_tokens: usize) -> (best: Option<PeerStatus>)
        requires
            comparable(self@, exclude, needed_tokens),
        ensures
            best == peer_for(self@, exclude, needed_tokens),
    {
        let mut best: Option<usize> = None;
        let mut i: usize = 0;
        while i < self.peers.len()
            invariant
                i <= self.peers@.len(),
                comparable(self.peers@, exclude, needed_tokens),
                best is None <==> least_loaded(
                    self.peers@,
                    exclude,
                    needed_tokens,
                    i as nat,
                ) is None,
                best is Some ==> least_loaded(self.peers@, exclude, needed_tokens, i as nat)
                    == Some(best->0 as int),
            decreases self.peers@.len() - i,
        {
            proof {
                lemma_least_loaded(self.peers@, exclude, needed_tokens, i as nat);
            }
            let peer: PeerStatus = self.peers[i];
            if peer.node_id.0 != exclude.0 && peer.free_tokens >= needed_tokens {
                assert(is_candidate(self.peers@[i as int], exclude, needed_tokens));
                match best {
                    None => {
                        best = Some(i);
                    },
                    Some(at) => {
                        assert(is_candidate(self.peers@[at as int], exclude, needed_tokens));
                        if !peer.utilisation.ge(self.peers[at].utilisation) {
                            best = Some(i);
                        }
                    },
                }
            }
            i = i + 1;
        }
        match best {
            None => None,
            Some(at) => {
                proof {
                    lemma_least_loaded(self.peers@, exclude, needed_tokens, i as nat);
                }
                Some(self.peers[at])
            },
        }
    }

    pub fn node_count(&self) -> (n: usize)
        ensures
            n == self@.len(),
    {
        self.peers.len()
    }
}

impl Default for NodeRegistry {
    fn default() -> (r: Self)
        ensures
            r.wf(),
            r@.len() == 0,
    {
        NodeRegistry::new()
    }
}

// ---------------------------------------------------------------------------
// Cache Transfer Agent
// ---------------------------------------------------------------------------

/// A transferred block sitting in a peer's inbox.
#[derive(Debug, Clone)]
pub struct RemoteBlock {
    pub handle: KvCacheHandle,
    pub origin: NixlNodeId,
    /// When the block came in, on the clock of whoever handed it off.
    pub received_at: u64,
    /// The raw payload bytes.
    pub payload: Vec<u8>,
}

/// A transferred block and its bytes.
pub struct RemoteModel {
    pub handle: KvCacheHandle,
    pub origin: NixlNodeId,
    pub received_at: u64,
    pub payload: Seq<u8>,
}

impl View for RemoteBlock {
    type V = RemoteModel;

    open spec fn view(&self) -> RemoteModel {
        RemoteModel {
            handle: self.handle,
            origin: self.origin,
            received_at: self.received_at,
            payload: self.payload@,
        }
    }
}

/// The blocks of one inbox.
pub open spec fn blocks_of(v: Seq<RemoteBlock>) -> Seq<RemoteModel> {
    v.map_values(|b: RemoteBlock| b@)
}

/// The inboxes of the fabric, by node.
#[derive(Debug)]
pub struct Inboxes {
    boxes: BTreeMap<u32, Vec<RemoteBlock>>,
}

impl View for Inboxes {
    type V = Map<u32, Seq<RemoteModel>>;

    closed spec fn view(&self) -> Map<u32, Seq<RemoteModel>> {
        self.boxes@.map_values(|v: Vec<RemoteBlock>| blocks_of(v@))
    }
}

/// What lies in the inbox of a node; a node without an inbox has nothing.
pub open spec fn inbox_of(boxes: Map<u32, Seq<RemoteModel>>, node: NixlNodeId) -> Seq<RemoteModel> {
    if boxes.dom().contains(node.0) {
        boxes[node.0]
    } else {
        Seq::empty()
    }
}

impl Inboxes {
    pub fn new() -> (b: Self)
        ensures
            b@ == Map::<u32, Seq<RemoteModel>>::empty(),
    {
        let b = Inboxes { boxes: BTreeMap::new() };
        assert(b@ =~= Map::<u32, Seq<RemoteModel>>::empty());
        b
    }

    /// Takes the inbox of a node out.
    fn take_box(&mut self, node: NixlNodeId) -> (v: Vec<RemoteBlock>)
        ensures
            blocks_of(v@) == inbox_of(old(self)@, node),
            final(self)@ == old(self)@.remove(node.0),
    {
        let taken = self.boxes.remove(&node.0);
        assert(self@ =~= old(self)@.remove(node.0));
        match taken {
            Some(v) => v,
            None => {
                let v: Vec<RemoteBlock> = Vec::new();
                assert(blocks_of(v@) =~= Seq::<RemoteModel>::empty());
                v
            },
        }
    }

    /// Sets the inbox of a node.
    fn put_box(&mut self, node: NixlNodeId, v: Vec<RemoteBlock>)
        ensures
            final(self)@ == old(self)@.insert(node.0, blocks_of(v@)),
    {
        self.boxes.insert(node.0, v);
        assert(self@ =~= old(self)@.insert(node.0, blocks_of(v@)));
    }

    /// Makes sure that a node has an inbox.
    pub fn open(&mut self, node: NixlNodeId)
        ensures
            final(self)@ == old(self)@.insert(node.0, inbox_of(old(self)@, node)),
    {
        let v = self.take_box(node);
        self.put_box(node, v);
        assert(self@ =~= old(self)@.insert(node.0, inbox_of(old(self)@, node)));
    }

    /// Delivers a block into the inbox of a node.
    pub fn deliver(&mut self, node: NixlNodeId, block: RemoteBlock)
        ensures
            final(self)@ == old(self)@.insert(node.0, inbox_of(old(self)@, node).push(block@)),
    {
        let mut v = self.take_box(node);
        let ghost before = v@;
        v.push(block);
        assert(blocks_of(v@) =~= blocks_of(before).push(block@));
        self.put_box(node, v);
        assert(self@ =~= old(self)@.insert(
            node.0,
            inbox_of(old(self)@, node).push(block@),
        ));
    }
}

/// Per-transfer-attempt outcome.
#[derive(Debug, Clone, Copy, PartialEq, Eq, Structural)]
pub enum TransferOutcome {
    /// Block shipped to `peer`.
    Sent { peer: NixlNodeId, bytes: usize },
    /// No peer available; block was dropped locally.
    DroppedLocally,
    /// Peer rejected the block.
    PeerFull { peer: NixlNodeId },
}

/// Telemetry for the transfer agent. A count that reaches the largest number
/// stays there.
#[derive(Debug, Clone, Copy, PartialEq, Eq, Structural)]
pub struct TransferStats {
    pub blocks_sent: u64,
    pub blocks_dropped: u64,
    pub bytes_sent: u64,
    pub transfers_failed: u64,
}

impl Default for TransferStats {
    fn default() -> (s: Self)
        ensures
            s == (TransferStats {
                blocks_sent: 0,
                blocks_dropped: 0,
                bytes_sent: 0,
                transfers_failed: 0,
            }),
    {
        TransferStats { blocks_sent: 0, blocks_dropped: 0, bytes_sent: 0, transfers_failed: 0 }
    }
}

/// Orchestrates the eviction handoff of one node.
///
/// When the local cache overflows, [`CacheTransferAgent::handoff`] is called
/// with the cold handles. For each it selects the best peer, serializes the
/// block through a DMA region and delivers it into the peer's inbox.
#[derive(Debug)]
pub struct CacheTransferAgent {
    pub node_id: NixlNodeId,
    pub dma: DmaBlockManager,
    pub stats: TransferStats,
}

/// What a handoff changes: the DMA regions of the sender, its counts, the
/// inboxes of the fabric, and what is reported.
pub struct Handoff {
    pub dma: DmaModel,
    pub stats: TransferStats,
    pub boxes: Map<u32, Seq<RemoteModel>>,
    pub outcomes: Seq<TransferOutcome>,
}

/// The payload of block `i`: empty if there is none.
pub open spec fn payload_of(payloads: Seq<Vec<u8>>, i: int) -> Seq<u8> {
    if i < payloads.len() {
        payloads[i]@
    } else {
        Seq::empty()
    }
}

/// What of a payload fits a region.
pub open spec fn cut(payload: Seq<u8>, block_bytes: usize) -> Seq<u8> {
    payload.take(shorter(payload.len(), block_bytes as nat) as int)
}

/// The regions after a block was written, and received on the other side.
pub open spec fn dma_shipped(m: DmaModel, handle: KvCacheHandle, payload: Seq<u8>) -> DmaModel {
    let (a, i) = dma_acquired(m);
    let written = dma_written(a, i, payload);
    let (b, j) = dma_acquired(DmaModel { free: written.free.push(i as usize), ..written });
    let wire = wire_of(handle, cut(payload, m.block_bytes));
    let received = dma_received(
        b,
        j,
        wire.subrange(WIRE_HEADER_LEN as int, WIRE_HEADER_LEN + wire_payload_len(wire)),
    );
    DmaModel { free: received.free.push(j as usize), ..received }
}

/// One block handed off.
pub open spec fn handed_one(
    h: Handoff,
    peers: Seq<PeerStatus>,
    me: NixlNodeId,
    now: u64,
    handle: KvCacheHandle,
    payload: Seq<u8>,
) -> Handoff {
    match peer_for(peers, me, handle.token_len) {
        None => Handoff {
            stats: TransferStats {
                blocks_dropped: plus_u64(h.stats.blocks_dropped, 1),
                ..h.stats
            },
            outcomes: h.outcomes.push(TransferOutcome::DroppedLocally),
            ..h
        },
        Some(peer) => {
            let sent = cut(payload, h.dma.block_bytes);
            let bytes = (WIRE_HEADER_LEN + sent.len()) as usize;
            Handoff {
                dma: dma_shipped(h.dma, handle, payload),
                stats: TransferStats {
                    blocks_sent: plus_u64(h.stats.blocks_sent, 1),
                    bytes_sent: plus_u64(h.stats.bytes_sent, bytes as nat),
                    ..h.stats
                },
                boxes: h.boxes.insert(
                    peer.node_id.0,
                    inbox_of(h.boxes, peer.node_id).push(
                        RemoteModel { handle, origin: me, received_at: now, payload: sent },
                    ),
                ),
                outcomes: h.outcomes.push(TransferOutcome::Sent { peer: peer.node_id, bytes }),
            }
        },
    }
}

/// The first `n` blocks handed off.
pub open spec fn handed(
    h: Handoff,
    peers: Seq<PeerStatus>,
    me: NixlNodeId,
    now: u64,
    handles: Seq<KvCacheHandle>,
    payloads: Seq<Vec<u8>>,
    n: nat,
) -> Handoff
    decreases n,
{
    if n == 0 {
        h
    } else {
        let k = (n - 1) as nat;
        handed_one(
            handed(h, peers, me, now, handles, payloads, k),
            peers,
            me,
            now,
            handles[k as int],
            payload_of(payloads, k as int),
        )
    }
}

/// An agent that has handed off nothing yet.
pub open spec fn fresh_agent(
    agent: CacheTransferAgent,
    id: u32,
    block_bytes: usize,
    dma_pool: usize,
) -> bool {
    &&& agent.wf()
    &&& agent.node_id.0 == id
    &&& agent.dma().block_bytes == block_bytes
    &&& agent.dma().regions == Seq::new(dma_pool as nat, |i: int| zeros(block_bytes as nat))
    &&& agent.dma().free == Seq::new(dma_pool as nat, |i: int| i as usize)
    &&& agent.dma().stats == (DmaStats {
        regions_allocated: dma_pool,
        blocks_serialized: 0,
        blocks_deserialized: 0,
        bytes_transferred: 0,
    })
    &&& agent.stats == (TransferStats {
        blocks_sent: 0,
        blocks_dropped: 0,
        bytes_sent: 0,
        transfers_failed: 0,
    })
}

impl CacheTransferAgent {
    pub open spec fn dma(&self) -> DmaModel {
        self.dma@
    }

    pub open spec fn wf(&self) -> bool {
        self.dma().wf()
    }

    /// Create a new agent and register it with the fabric.
    pub fn new(
        registry: &mut NodeRegistry,
        inboxes: &mut Inboxes,
        block_bytes: usize,
        dma_pool_size: usize,
        node_capacity_tokens: usize,
    ) -> (agent: Self)
        requires
            old(registry).wf(),
            old(registry)@.len() < u32::MAX,
        ensures
            fresh_agent(agent, old(registry)@.len() as u32, block_bytes, dma_pool_size),
            final(registry).wf(),
            final(registry)@ == old(registry)@.push(
                fresh_peer(agent.node_id.0, node_capacity_tokens),
            ),
            final(inboxes)@ == old(inboxes)@.insert(
                agent.node_id.0,
                inbox_of(old(inboxes)@, agent.node_id),
            ),
    {
        let node_id: NixlNodeId = registry.register(node_capacity_tokens);
        inboxes.open(node_id);
        CacheTransferAgent {
            node_id,
            dma: DmaBlockManager::new(block_bytes, dma_pool_size),
            stats: TransferStats {
                blocks_sent: 0,
                blocks_dropped: 0,
                bytes_sent: 0,
                transfers_failed: 0,
            },
        }
    }

    /// Hand off a set of evicted blocks, each to the best available peer.
    ///
    /// `payloads[i]` holds the raw bytes of `handles[i]`; a handle without a
    /// payload is sent with an empty one. `now` is the time of the handoff.
    pub fn handoff(
        &mut self,
        registry: &NodeRegistry,
        inboxes: &mut Inboxes,
        now: u64,
        handles: &[KvCacheHandle],
        payloads: &[Vec<u8>],
    ) -> (outcomes: Vec<TransferOutcome>)
        requires
            old(self).wf(),
            forall|i: int|
                0 <= i < handles@.len() ==> comparable(
                    registry@,
                    old(self).node_id,
                    (#[trigger] handles@[i]).token_len,
                ),
        ensures
            final(self).wf(),
            final(self).node_id == old(self).node_id,
            ({
                let start = Handoff {
                    dma: old(self).dma(),
                    stats: old(self).stats,
                    boxes: old(inboxes)@,
                    outcomes: Seq::empty(),
                };
                let end = handed(
                    start,
                    registry@,
                    old(self).node_id,
                    now,
                    handles@,
                    payloads@,
                    handles@.len(),
                );
                &&& final(self).dma() == end.dma
                &&& final(self).stats == end.stats
                &&& final(inboxes)@ == end.boxes
                &&& outcomes@ == end.outcomes
            }),
            outcomes@.len() == handles@.len(),
    {
        let ghost start = Handoff {
            dma: self.dma@,
            stats: self.stats,
            boxes: inboxes@,
            outcomes: Seq::empty(),
        };
        let ghost me = self.node_id;
        let empty: Vec<u8> = Vec::new();
        let mut outcomes: Vec<TransferOutcome> = Vec::with_capacity(handles.len());
        let mut i: usize = 0;
        while i < handles.len()
            invariant
                i <= handles@.len(),
                self.wf(),
                self.node_id == me,
                empty@.len() == 0,
                forall|k: int|
                    0 <= k < handles@.len() ==> comparable(
                        registry@,
                        me,
                        (#[trigger] handles@[k]).token_len,
                    ),
                (Handoff {
                    dma: self.dma@,
                    stats: self.stats,
                    boxes: inboxes@,
                    outcomes: outcomes@,
                }) == handed(start, registry@, me, now, handles@, payloads@, i as nat),
                outcomes@.len() == i,
            decreases handles@.len() - i,
        {
            let handle: KvCacheHandle = handles[i];
            let payload: &Vec<u8> = if i < payloads.len() {
                &payloads[i]
            } else {
                &empty
            };
            assert(payload@ =~= payload_of(payloads@, i as int));
            match registry.best_peer(self.node_id, handle.token_len) {
                None => {
                    self.stats.blocks_dropped = self.stats.blocks_dropped.saturating_add(1);
                    outcomes.push(TransferOutcome::DroppedLocally);
                },
                Some(peer) => {
                    let (wire, received) = self.ship(handle, payload.as_slice());
                    let bytes: usize = wire.len();
                    let mut body: Vec<u8> = Vec::new();
                    append_bytes(
                        &mut body,
                        vstd::slice::slice_subrange(wire.as_slice(), WIRE_HEADER_LEN, bytes),
                    );
                    proof {
                        lemma_wire_fields(handle, cut(payload@, self.dma@.block_bytes));
                        assert(body@ =~= cut(payload@, self.dma@.block_bytes));
                    }
                    if received {
                        let remote = RemoteBlock {
                            handle,
                            origin: self.node_id,
                            received_at: now,
                            payload: body,
                        };
                        inboxes.deliver(peer.node_id, remote);
                        self.stats.blocks_sent = self.stats.blocks_sent.saturating_add(1);
                        self.stats.bytes_sent = self.stats.bytes_sent.saturating_add(bytes as u64);
                        outcomes.push(TransferOutcome::Sent { peer: peer.node_id, bytes });
                    } else {
                        self.stats.transfers_failed = self.stats.transfers_failed.saturating_add(1);
                        outcomes.push(TransferOutcome::PeerFull { peer: peer.node_id });
                    }
                },
            }
            i = i + 1;
        }
        outcomes
    }

    /// Writes a block into a region and reads it back on the receiving side:
    /// the wire buffer, and whether the receiver took it, which it always does.
    fn ship(&mut self, handle: KvCacheHandle, payload: &[u8]) -> (r: (Vec<u8>, bool))
        requires
            old(self).wf(),
        ensures
            final(self).wf(),
            final(self).node_id == old(self).node_id,
            final(self).stats == old(self).stats,
            final(self).dma() == dma_shipped(old(self).dma(), handle, payload@),
            final(self).dma().block_bytes == old(self).dma().block_bytes,
            r.0@ == wire_of(handle, cut(payload@, old(self).dma().block_bytes)),
            r.0@.len() == WIRE_HEADER_LEN + cut(payload@, old(self).dma().block_bytes).len(),
            r.1,
    {
        let region_idx: usize = self.dma.acquire();
        let wire: Vec<u8> = self.dma.write_and_serialize(region_idx, handle, payload);
        self.dma.release(region_idx);
        let recv_idx: usize = self.dma.acquire();
        proof {
            serialized_blocks_are_complete(handle, cut(payload@, old(self).dma@.block_bytes));
        }
        let received = self.dma.receive_into(recv_idx, wire.as_slice());
        self.dma.release(recv_idx);
        (wire, received.is_some())
    }

    /// Drain all blocks delivered to this node's inbox.
    pub fn drain_inbox(&self, inboxes: &mut Inboxes) -> (blocks: Vec<RemoteBlock>)
        ensures
            blocks_of(blocks@) == inbox_of(old(inboxes)@, self.node_id),
            inbox_of(final(inboxes)@, self.node_id).len() == 0,
            final(inboxes)@.remove(self.node_id.0) == old(inboxes)@.remove(self.node_id.0),
    {
        let blocks: Vec<RemoteBlock> = inboxes.take_box(self.node_id);
        inboxes.put_box(self.node_id, Vec::new());
        assert(inboxes@.remove(self.node_id.0) =~= old(inboxes)@.remove(self.node_id.0));
        blocks
    }

    pub fn dma_stats(&self) -> (s: &DmaStats)
        ensures
            *s == self.dma().stats,
    {
        self.dma.stats()
    }
}

/// Every block that is handed off is sent or dropped: no peer ever refuses one.
/// A block is dropped only where no other node has room for it.
pub proof fn every_block_is_sent_or_dropped(
    h: Handoff,
    peers: Seq<PeerStatus>,
    me: NixlNodeId,
    now: u64,
    handles: Seq<KvCacheHandle>,
    payloads: Seq<Vec<u8>>,
    n: nat,
)
    requires
        n <= handles.len(),
        h.outcomes.len() == 0,
    ensures
        ({
            let end = handed(h, peers, me, now, handles, payloads, n);
            &&& end.outcomes.len() == n
            &&& end.stats.transfers_failed == h.stats.transfers_failed
            &&& forall|i: int|
                0 <= i < n ==> match #[trigger] end.outcomes[i] {
                    TransferOutcome::Sent { peer, bytes } => peer_for(
                        peers,
                        me,
                        handles[i].token_len,
                    ) is Some && peer == (peer_for(peers, me, handles[i].token_len)->0).node_id,
                    TransferOutcome::DroppedLocally => peer_for(
                        peers,
                        me,
                        handles[i].token_len,
                    ) is None,
                    TransferOutcome::PeerFull { peer } => false,
                }
        }),
    decreases n,
{
    if n > 0 {
        every_block_is_sent_or_dropped(h, peers, me, now, handles, payloads, (n - 1) as nat);
        let before = handed(h, peers, me, now, handles, payloads, (n - 1) as nat);
        let end = handed(h, peers, me, now, handles, payloads, n);
        assert(end.outcomes.drop_last() =~= before.outcomes);
        assert forall|i: int| 0 <= i < n implies match #[trigger] end.outcomes[i] {
            TransferOutcome::Sent { peer, bytes } => peer_for(
                peers,
                me,
                handles[i].token_len,
            ) is Some && peer == (peer_for(peers, me, handles[i].token_len)->0).node_id,
            TransferOutcome::DroppedLocally => peer_for(peers, me, handles[i].token_len) is None,
            TransferOutcome::PeerFull { peer } => false,
        } by {
            if i < n - 1 {
                assert(end.outcomes[i] == before.outcomes[i]);
            }
        }
    }
}

/// What is handed off arrives: after one block that found a peer, the peer's
/// inbox ends with the block, under the sender's name and with the bytes that a
/// region holds, and every other inbox is as it was.
pub proof fn handed_off_blocks_arrive(
    h: Handoff,
    peers: Seq<PeerStatus>,
    me: NixlNodeId,
    now: u64,
    handle: KvCacheHandle,
    payload: Seq<u8>,
    other: NixlNodeId,
)
    requires
        peer_for(peers, me, handle.token_len) is Some,
        payload.len() <= h.dma.block_bytes,
    ensures
        ({
            let peer = (peer_for(peers, me, handle.token_len)->0).node_id;
            let end = handed_one(h, peers, me, now, handle, payload);
            &&& inbox_of(end.boxes, peer) == inbox_of(h.boxes, peer).push(
                RemoteModel { handle, origin: me, received_at: now, payload },
            )
            &&& other != peer ==> inbox_of(end.boxes, other) == inbox_of(h.boxes, other)
        }),
{
    assert(cut(payload, h.dma.block_bytes) =~= payload);
}

/// A fabric's shared parts and its agents.
pub struct Fabric {
    pub registry: NodeRegistry,
    pub inboxes: Inboxes,
    pub agents: Vec<CacheTransferAgent>,
}

/// Convenience builder: creates the shared registry and the inboxes, and
/// `count` agents wired together.
pub fn build_fabric(
    count: usize,
    block_bytes: usize,
    dma_pool: usize,
    capacity_tokens: usize,
) -> (fabric: Fabric)
    requires
        count <= u32::MAX,
    ensures
        fabric.registry.wf(),
        fabric.registry@ == Seq::new(
            count as nat,
            |i: int| fresh_peer(i as u32, capacity_tokens),
        ),
        fabric.inboxes@ == Map::new(
            |k: u32| k < count,
            |k: u32| Seq::<RemoteModel>::empty(),
        ),
        fabric.agents@.len() == count,
        forall|i: int|
            0 <= i < count ==> fresh_agent(
                #[trigger] fabric.agents@[i],
                i as u32,
                block_bytes,
                dma_pool,
            ),
{
    let mut registry = NodeRegistry::new();
    let mut inboxes = Inboxes::new();
    let mut agents: Vec<CacheTransferAgent> = Vec::with_capacity(count);
    let ghost nothing = |k: u32| Seq::<RemoteModel>::empty();
    let mut i: usize = 0;
    while i < count
        invariant
            i <= count <= u32::MAX,
            registry.wf(),
            registry@ == Seq::new(i as nat, |i: int| fresh_peer(i as u32, capacity_tokens)),
            nothing == (|k: u32| Seq::<RemoteModel>::empty()),
            inboxes@ == Map::new(|k: u32| k < i, nothing),
            agents@.len() == i,
            forall|k: int|
                0 <= k < i ==> fresh_agent(
                    #[trigger] agents@[k],
                    k as u32,
                    block_bytes,
                    dma_pool,
                ),
        decreases count - i,
    {
        let ghost before = inboxes@;
        let agent = CacheTransferAgent::new(
            &mut registry,
            &mut inboxes,
            block_bytes,
            dma_pool,
            capacity_tokens,
        );
        proof {
            assert(inboxes@ =~= before.insert(i as u32, Seq::empty()));
            assert(inboxes@ =~= Map::new(|k: u32| k < i + 1, nothing));
            assert(registry@ =~= Seq::new(
                (i + 1) as nat,
                |i: int| fresh_peer(i as u32, capacity_tokens),
            ));
        }
        agents.push(agent);
        i = i + 1;
    }
    Fabric { registry, inboxes, agents }
}

/// The wire format byte by byte: the block number in eight bytes, the number of tokens
/// in four, the length of the payload in four, each with its lowest byte first, and
/// then the payload.
pub proof fn wire_bytes_spelled_out(handle: KvCacheHandle, payload: Seq<u8>)
    requires
        handle.token_len <= u32::MAX,
        payload.len() <= u32::MAX,
    ensures
        ({
            let b = wire_of(handle, payload);
            &&& b.len() == 16 + payload.len()
            &&& handle.block_id == b[0] + 0x100 * b[1] + 0x1_0000 * b[2] + 0x100_0000 * b[3]
                + 0x1_0000_0000 * b[4] + 0x100_0000_0000 * b[5] + 0x1_0000_0000_0000 * b[6]
                + 0x100_0000_0000_0000 * b[7]
            &&& handle.token_len == b[8] + 0x100 * b[9] + 0x1_0000 * b[10] + 0x100_0000 * b[11]
            &&& payload.len() == b[12] + 0x100 * b[13] + 0x1_0000 * b[14] + 0x100_0000 * b[15]
            &&& forall|i: int| 0 <= i < payload.len() ==> b[16 + i] == #[trigger] payload[i]
        }),
{
    let b = wire_of(handle, payload);
    let x = bytes::le_bytes(handle.block_id as nat, 8);
    let y = bytes::le_bytes(handle.token_len as nat, 4);
    let z = bytes::le_bytes(payload.len(), 4);
    bytes::lemma_pow256_values();
    bytes::le_round_trip(handle.block_id as nat, 8);
    bytes::le_round_trip(handle.token_len as nat, 4);
    bytes::le_round_trip(payload.len(), 4);
    bytes::le_values_spelled_out(x);
    bytes::le_values_spelled_out(y);
    bytes::le_values_spelled_out(z);
    assert(b == x + y + z + payload);
    assert(forall|i: int| 0 <= i < 8 ==> b[i] == #[trigger] x[i]);
    assert(forall|i: int| 0 <= i < 4 ==> b[8 + i] == #[trigger] y[i]);
    assert(forall|i: int| 0 <= i < 4 ==> b[12 + i] == #[trigger] z[i]);
    assert(b[8] == y[0] && b[9] == y[1] && b[10] == y[2] && b[11] == y[3]);
    assert(b[12] == z[0] && b[13] == z[1] && b[14] == z[2] && b[15] == z[3]);
}

/// A region that was written holds the payload from its start on, as far as it fits,
/// and zeros behind it; one that was received into keeps what it held there. No other
/// region changes.
pub proof fn regions_hold_what_was_moved(
    m: DmaModel,
    idx: int,
    payload: Seq<u8>,
    other: int,
    i: int,
)
    requires
        m.wf(),
        0 <= idx < m.regions.len(),
        0 <= other < m.regions.len(),
        other != idx,
        0 <= i < m.block_bytes,
    ensures
        dma_written(m, idx, payload).regions[idx][i] == (if i < payload.len() {
            payload[i]
        } else {
            0u8
        }),
        dma_received(m, idx, payload).regions[idx][i] == (if i < payload.len() {
            payload[i]
        } else {
            m.regions[idx][i]
        }),
        dma_written(m, idx, payload).regions[other] == m.regions[other],
        dma_received(m, idx, payload).regions[other] == m.regions[other],
        dma_written(m, idx, payload).regions[idx].len() == m.block_bytes,
        dma_received(m, idx, payload).regions[idx].len() == m.block_bytes,
        dma_written(m, idx, payload).free == m.free,
        dma_received(m, idx, payload).free == m.free,
{
    assert(m.regions[idx].len() == m.block_bytes);
}

/// Nodes that register later are farther away: ten microseconds for each number, from
/// fifty on. They start with all their room and no load.
pub proof fn fresh_peers_are_spaced(id: u32, capacity_tokens: usize)
    requires
        id < u32::MAX,
    ensures
        fresh_peer(0, capacity_tokens).rtt_micros == 50,
        fresh_peer((id + 1) as u32, capacity_tokens).rtt_micros == fresh_peer(
            id,
            capacity_tokens,
        ).rtt_micros + 10,
        fresh_peer(id, capacity_tokens).free_tokens == capacity_tokens,
        fresh_peer(id, capacity_tokens).node_id.0 == id,
        fresh_peer(id, capacity_tokens).utilisation.rank() == 0,
{
}

proof fn lemma_first_of_equals(
    peers: Seq<PeerStatus>,
    exclude: NixlNodeId,
    needed: usize,
    n: nat,
    i: int,
)
    requires
        n <= peers.len(),
        0 <= i < n,
        is_candidate(peers[i], exclude, needed),
    ensures
        least_loaded(peers, exclude, needed, n) matches Some(k) && 0 <= k < n && (
        peers[k].utilisation.rank() < peers[i].utilisation.rank() || (peers[k].utilisation.rank()
            == peers[i].utilisation.rank() && k <= i)),
    decreases n,
{
    if i < n - 1 {
        lemma_first_of_equals(peers, exclude, needed, (n - 1) as nat, i);
    } else if n > 1 {
        lemma_least_exists(peers, exclude, needed, (n - 1) as nat);
    }
}

proof fn lemma_least_exists(peers: Seq<PeerStatus>, exclude: NixlNodeId, needed: usize, n: nat)
    ensures
        least_loaded(peers, exclude, needed, n) matches Some(k) ==> 0 <= k < n,
    decreases n,
{
    if n > 0 {
        lemma_least_exists(peers, exclude, needed, (n - 1) as nat);
    }
}

/// Of equally loaded nodes with room the one that registered first is chosen.
pub proof fn the_first_of_equal_peers_is_chosen(
    peers: Seq<PeerStatus>,
    exclude: NixlNodeId,
    needed: usize,
    i: int,
)
    requires
        0 <= i < peers.len(),
        is_candidate(peers[i], exclude, needed),
        forall|j: int|
            0 <= j < i && #[trigger] is_candidate(peers[j], exclude, needed)
                ==> peers[j].utilisation.rank() > peers[i].utilisation.rank(),
        forall|j: int|
            i < j < peers.len() && #[trigger] is_candidate(peers[j], exclude, needed)
                ==> peers[j].utilisation.rank() >= peers[i].utilisation.rank(),
    ensures
        peer_for(peers, exclude, needed) == Some(peers[i]),
{
    lemma_first_of_equals(peers, exclude, needed, peers.len(), i);
    let k = least_loaded(peers, exclude, needed, peers.len())->0;
    lemma_least_is_candidate(peers, exclude, needed, peers.len());
    assert(is_candidate(peers[k], exclude, needed));
}

proof fn lemma_least_is_candidate(
    peers: Seq<PeerStatus>,
    exclude: NixlNodeId,
    needed: usize,
    n: nat,
)
    ensures
        least_loaded(peers, exclude, needed, n) matches Some(k) ==> is_candidate(
            peers[k],
            exclude,
            needed,
        ),
    decreases n,
{
    if n > 0 {
        lemma_least_is_candidate(peers, exclude, needed, (n - 1) as nat);
    }
}

/// Who may be handed tokens is another node than the sender with at least as many
/// tokens free.
pub proof fn candidates_have_room(p: PeerStatus, exclude: NixlNodeId, needed: usize)
    ensures
        is_candidate(p, exclude, needed) <==> p.node_id.0 != exclude.0 && needed <= p.free_tokens,
{
}

/// A block that is sent counts once, with its payload and sixteen bytes of header; one
/// that is dropped counts once as dropped. Nothing else is counted.
pub proof fn handoffs_are_counted(
    h: Handoff,
    peers: Seq<PeerStatus>,
    me: NixlNodeId,
    now: u64,
    handle: KvCacheHandle,
    payload: Seq<u8>,
)
    requires
        payload.len() <= h.dma.block_bytes,
        payload.len() + 16 <= usize::MAX,
        h.stats.blocks_sent < u64::MAX,
        h.stats.blocks_dropped < u64::MAX,
        h.stats.bytes_sent + payload.len() + 16 <= u64::MAX,
    ensures
        ({
            let end = handed_one(h, peers, me, now, handle, payload);
            let found = peer_for(peers, me, handle.token_len) is Some;
            &&& end.outcomes.len() == h.outcomes.len() + 1
            &&& end.stats.transfers_failed == h.stats.transfers_failed
            &&& found ==> {
                &&& end.stats.blocks_sent == h.stats.blocks_sent + 1
                &&& end.stats.blocks_dropped == h.stats.blocks_dropped
                &&& end.stats.bytes_sent == h.stats.bytes_sent + 16 + payload.len()
                &&& end.outcomes.last() is Sent
                &&& end.outcomes.last()->Sent_bytes == 16 + payload.len()
            }
            &&& !found ==> {
                &&& end.stats.blocks_sent == h.stats.blocks_sent
                &&& end.stats.blocks_dropped == h.stats.blocks_dropped + 1
                &&& end.stats.bytes_sent == h.stats.bytes_sent
                &&& end.outcomes.last() is DroppedLocally
                &&& end.boxes == h.boxes
                &&& end.dma == h.dma
            }
        }),
{
    assert(payload.take(payload.len() as int) =~= payload);
}

} // verus!
