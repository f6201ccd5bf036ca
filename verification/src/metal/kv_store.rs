//! The pool of KV pages in Metal memory: which page belongs to which block.

use std::collections::BTreeMap;
use vstd::prelude::*;
use crate::kv_store;
use crate::kv_store::{sum_bytes, KvStoreError};
use crate::radix_cache::KvCacheHandle;
use crate::runtime::KvBlockStore;

verus! {

broadcast use vstd::std_specs::btree::group_btree_axioms;

/// A block of KV cache stored in Metal memory.
#[derive(Debug, Clone, Copy, PartialEq, Eq, Structural)]
pub struct KvBlock {
    pub handle: KvCacheHandle,
    pub bytes: usize,
    pub offset: usize,
}

/// The accounts of a KV store that uses two large Metal buffers, one for keys
/// and one for values, as a pool of pages. Every block takes one page.
#[derive(Debug, Clone)]
pub struct MetalKvStore {
    next_block_id: u64,
    bytes_per_token: usize,
    page_bytes: usize,
    pool_pages: usize,
    n_layer: usize,
    blocks: BTreeMap<u64, kv_store::KvBlock>,
    page_of: BTreeMap<u64, usize>,
    free_pages: Vec<usize>,
}

/// The accounts of a pool.
pub struct PoolAccounts {
    pub next_block_id: u64,
    pub bytes_per_token: usize,
    pub page_bytes: usize,
    pub pool_pages: usize,
    pub n_layer: usize,
    pub blocks: Map<u64, kv_store::KvBlock>,
    pub page_of: Map<u64, usize>,
    pub free: Seq<usize>,
}

impl View for MetalKvStore {
    type V = PoolAccounts;

    closed spec fn view(&self) -> PoolAccounts {
        PoolAccounts {
            next_block_id: self.next_block_id,
            bytes_per_token: self.bytes_per_token,
            page_bytes: self.page_bytes,
            pool_pages: self.pool_pages,
            n_layer: self.n_layer,
            blocks: self.blocks@,
            page_of: self.page_of@,
            free: self.free_pages@,
        }
    }
}

impl PoolAccounts {
    /// Every page is free or belongs to one block, and never to two.
    pub open spec fn wf(self) -> bool {
        &&& self.blocks.dom() == self.page_of.dom()
        &&& self.blocks.dom().finite()
        &&& self.pool_pages * self.page_bytes <= usize::MAX
        &&& self.free.no_duplicates()
        &&& forall|i: int| 0 <= i < self.free.len() ==> #[trigger] self.free[i] < self.pool_pages
        &&& forall|id: u64| #[trigger]
            self.blocks.contains_key(id) ==> id < self.next_block_id
                && self.blocks[id].handle.block_id == id
        &&& forall|id: u64| #[trigger]
            self.page_of.contains_key(id) ==> self.page_of[id] < self.pool_pages
                && !self.free.contains(self.page_of[id])
        &&& forall|a: u64, b: u64| #[trigger]
            self.page_of.contains_key(a) && #[trigger] self.page_of.contains_key(b) && a != b
                ==> self.page_of[a] != self.page_of[b]
        &&& self.free.len() + self.blocks.dom().len() == self.pool_pages
    }

    /// The bytes of each of the two buffers.
    pub open spec fn pool_bytes(self) -> nat {
        self.n_layer as nat * (self.pool_pages as nat * self.page_bytes as nat)
    }

    /// The block of a number.
    pub open spec fn block(self, id: u64) -> KvBlock {
        KvBlock {
            handle: self.blocks[id].handle,
            bytes: self.blocks[id].bytes,
            offset: (self.page_of[id] * self.page_bytes) as usize,
        }
    }
}

/// The accounts after a block was made.
pub open spec fn pool_taken(p: PoolAccounts, token_len: usize) -> PoolAccounts {
    let id = p.next_block_id;
    PoolAccounts {
        next_block_id: (id + 1) as u64,
        blocks: p.blocks.insert(
            id,
            kv_store::KvBlock {
                handle: KvCacheHandle { block_id: id, token_len },
                bytes: (token_len * p.bytes_per_token) as usize,
            },
        ),
        page_of: p.page_of.insert(id, p.free.last()),
        free: p.free.drop_last(),
        ..p
    }
}

/// The accounts after a block was given up.
pub open spec fn pool_given_back(p: PoolAccounts, id: u64) -> PoolAccounts {
    PoolAccounts {
        blocks: p.blocks.remove(id),
        page_of: p.page_of.remove(id),
        free: p.free.push(p.page_of[id]),
        ..p
    }
}

/// Giving a block up right after it was made frees its page again; only its
/// number is used up.
pub proof fn made_then_given_up(p: PoolAccounts, token_len: usize)
    requires
        p.wf(),
        p.free.len() > 0,
        p.next_block_id < u64::MAX,
    ensures
        pool_given_back(pool_taken(p, token_len), p.next_block_id) == (PoolAccounts {
            next_block_id: (p.next_block_id + 1) as u64,
            ..p
        }),
{
    let back = pool_given_back(pool_taken(p, token_len), p.next_block_id);
    assert(!p.blocks.contains_key(p.next_block_id));
    assert(!p.page_of.dom().contains(p.next_block_id));
    assert(back.blocks =~= p.blocks);
    assert(back.page_of =~= p.page_of);
    assert(back.free =~= p.free);
}

/// Two blocks of a pool never share a page: where pages hold anything at all,
/// they lie at different offsets, at least a page apart.
pub proof fn blocks_do_not_overlap(p: PoolAccounts, a: u64, b: u64)
    requires
        p.wf(),
        p.blocks.contains_key(a),
        p.blocks.contains_key(b),
        a != b,
    ensures
        ({
            let x = p.block(a).offset;
            let y = p.block(b).offset;
            x + p.page_bytes <= y || y + p.page_bytes <= x
        }),
        p.block(a).offset + p.page_bytes <= p.pool_pages * p.page_bytes,
{
    assert(p.blocks.dom().contains(a) && p.blocks.dom().contains(b));
    assert(p.page_of.contains_key(a) && p.page_of.contains_key(b));
    let x = p.page_of[a] as int;
    let y = p.page_of[b] as int;
    let w = p.page_bytes as int;
    let n = p.pool_pages as int;
    assert(x * w + w <= n * w) by (nonlinear_arith)
        requires
            0 <= x < n,
            w >= 0,
    ;
    assert(y * w + w <= n * w) by (nonlinear_arith)
        requires
            0 <= y < n,
            w >= 0,
    ;
    if x < y {
        assert(x * w + w <= y * w) by (nonlinear_arith)
            requires
                x < y,
                w >= 0,
        ;
    } else {
        assert(y * w + w <= x * w) by (nonlinear_arith)
            requires
                y < x,
                w >= 0,
        ;
    }
}

impl MetalKvStore {
    /// A pool of `pool_pages` free pages for each of `n_layer` layers.
    pub fn new(
        kv_bytes_per_token: usize,
        pool_pages: usize,
        page_tokens: usize,
        n_layer: usize,
    ) -> (s: Self)
        requires
            page_tokens * kv_bytes_per_token <= usize::MAX,
            pool_pages * (page_tokens * kv_bytes_per_token) <= usize::MAX,
            n_layer * (pool_pages * (page_tokens * kv_bytes_per_token)) <= usize::MAX,
        ensures
            s@.wf(),
            s@ == (PoolAccounts {
                next_block_id: 1,
                bytes_per_token: kv_bytes_per_token,
                page_bytes: (page_tokens * kv_bytes_per_token) as usize,
                pool_pages,
                n_layer,
                blocks: Map::empty(),
                page_of: Map::empty(),
                free: Seq::new(pool_pages as nat, |i: int| (pool_pages - 1 - i) as usize),
            }),
            s@.pool_bytes() <= usize::MAX,
            pool_pages > 0 ==> s@.free.last() == 0,
            forall|p: usize| p < pool_pages ==> #[trigger] s@.free.contains(p),
    {
        let page_bytes: usize = page_tokens * kv_bytes_per_token;
        let mut free_pages: Vec<usize> = Vec::with_capacity(pool_pages);
        let mut i: usize = pool_pages;
        while i > 0
            invariant
                i <= pool_pages,
                free_pages@ == Seq::new(
                    (pool_pages - i) as nat,
                    |i: int| (pool_pages - 1 - i) as usize,
                ),
            decreases i,
        {
            i = i - 1;
            free_pages.push(i);
            assert(free_pages@ =~= Seq::new(
                (pool_pages - i) as nat,
                |i: int| (pool_pages - 1 - i) as usize,
            ));
        }
        let s = MetalKvStore {
            next_block_id: 1,
            bytes_per_token: kv_bytes_per_token,
            page_bytes,
            pool_pages,
            n_layer,
            blocks: BTreeMap::new(),
            page_of: BTreeMap::new(),
            free_pages,
        };
        assert(s@.blocks.dom() =~= s@.page_of.dom());
        assert forall|p: usize| p < pool_pages implies #[trigger] s@.free.contains(p) by {
            assert(s@.free[pool_pages - 1 - p] == p);
        }
        s
    }

    /// The bytes of each of the two buffers: one for the keys, one for the
    /// values.
    pub fn pool_size(&self) -> (n: usize)
        requires
            self@.wf(),
            self@.pool_bytes() <= usize::MAX,
        ensures
            n == self@.pool_bytes(),
    {
        proof {
            let a = self.pool_pages as nat * self.page_bytes as nat;
            assert(a == self.pool_pages * self.page_bytes);
            assert(self.n_layer as nat * a == self.n_layer * a);
        }
        self.n_layer * (self.pool_pages * self.page_bytes)
    }

    /// Returns a block given its handle.
    pub fn get_block(&self, handle: KvCacheHandle) -> (r: Option<KvBlock>)
        requires
            self@.wf(),
        ensures
            r is Some <==> self@.blocks.contains_key(handle.block_id)
                && self@.blocks[handle.block_id].handle == handle,
            r is Some ==> r->0 == self@.block(handle.block_id),
    {
        match self.blocks.get(&handle.block_id) {
            None => None,
            Some(block) => {
                if block.handle == handle {
                    assert(self@.blocks.dom().contains(handle.block_id));
                    assert(self@.page_of.contains_key(handle.block_id));
                    match self.page_of.get(&handle.block_id) {
                        None => None,
                        Some(page) => {
                            proof {
                                let p = *page as int;
                                let w = self.page_bytes as int;
                                let n = self.pool_pages as int;
                                assert(p * w <= n * w) by (nonlinear_arith)
                                    requires
                                        0 <= p < n,
                                        w >= 0,
                                ;
                            }
                            Some(
                                KvBlock {
                                    handle: block.handle,
                                    bytes: block.bytes,
                                    offset: *page * self.page_bytes,
                                },
                            )
                        },
                    }
                } else {
                    None
                }
            },
        }
    }

    /// Releases a block back to the pool, whatever length the handle states.
    pub fn release_block(&mut self, handle: KvCacheHandle) -> (r: Result<(), KvStoreError>)
        requires
            old(self)@.wf(),
        ensures
            final(self)@.wf(),
            r is Ok <==> old(self)@.blocks.contains_key(handle.block_id),
            r is Ok ==> final(self)@ == pool_given_back(old(self)@, handle.block_id),
            r is Err ==> final(self)@ == old(self)@ && r == Err::<(), KvStoreError>(
                KvStoreError::UnknownBlock(handle),
            ),
    {
        let ghost id = handle.block_id;
        let ghost p = self@;
        match self.blocks.remove(&handle.block_id) {
            None => {
                assert(self.blocks@ =~= p.blocks);
                Err(KvStoreError::UnknownBlock(handle))
            },
            Some(_block) => {
                assert(p.blocks.dom().contains(id));
                assert(p.page_of.contains_key(id));
                match self.page_of.remove(&handle.block_id) {
                    None => {},
                    Some(page) => {
                        self.free_pages.push(page);
                    },
                }
                proof {
                    let q = self@;
                    assert(q == pool_given_back(p, id));
                    assert(q.blocks.dom() =~= q.page_of.dom());
                    assert forall|k: u64| #[trigger] q.page_of.contains_key(k) implies q.page_of[k]
                        < q.pool_pages && !q.free.contains(q.page_of[k]) by {
                        assert(p.page_of.contains_key(k));
                        if q.free.contains(q.page_of[k]) {
                            let j = q.free.index_of(q.page_of[k]);
                            if j < p.free.len() {
                                assert(p.free[j] == p.page_of[k]);
                                assert(p.free.contains(p.page_of[k]));
                            }
                        }
                    }
                    assert forall|a: u64, b: u64| #[trigger]
                        q.page_of.contains_key(a) && #[trigger] q.page_of.contains_key(b) && a
                            != b implies q.page_of[a] != q.page_of[b] by {
                        assert(p.page_of.contains_key(a) && p.page_of.contains_key(b));
                    }
                    assert forall|k: u64| #[trigger] q.blocks.contains_key(k) implies k
                        < q.next_block_id && q.blocks[k].handle.block_id == k by {
                        assert(p.blocks.contains_key(k));
                    }
                    assert forall|i: int, j: int|
                        0 <= i < q.free.len() && 0 <= j < q.free.len() && i != j implies q.free[i]
                        != q.free[j] by {
                        if i == p.free.len() {
                            assert(p.free.contains(p.free[j]));
                        } else if j == p.free.len() {
                            assert(p.free.contains(p.free[i]));
                        }
                    }
                }
                Ok(())
            },
        }
    }
}

impl KvBlockStore for MetalKvStore {
    open spec fn held(&self) -> Map<u64, KvCacheHandle> {
        self@.blocks.map_values(|b: kv_store::KvBlock| b.handle)
    }

    open spec fn numbers_left(&self) -> nat {
        (u64::MAX - self@.next_block_id) as nat
    }

    open spec fn longest_block(&self) -> nat {
        if self@.bytes_per_token == 0 {
            usize::MAX as nat
        } else {
            usize::MAX as nat / self@.bytes_per_token as nat
        }
    }

    open spec fn grants(&self, token_len: usize) -> bool {
        self@.free.len() > 0
    }

    open spec fn refusal(&self, token_len: usize) -> KvStoreError {
        KvStoreError::EmptyBlock
    }

    open spec fn takes(&self, count: nat, longest: nat) -> bool {
        count <= self@.free.len()
    }

    open spec fn bytes_of(&self, block_id: u64) -> nat {
        self@.blocks[block_id].bytes as nat
    }

    open spec fn total_bytes(&self) -> nat {
        kv_store::bytes_in(self@.blocks)
    }

    open spec fn store_wf(&self) -> bool {
        self@.wf()
    }

    /// Allocates a new block from the pool for a given sequence length. Where no
    /// page is free the block is refused.
    fn allocate(&mut self, token_len: usize) -> (r: Result<KvCacheHandle, KvStoreError>)
        ensures
            r is Ok ==> r->Ok_0.block_id == old(self)@.next_block_id && final(self)@ == pool_taken(
                old(self)@,
                token_len,
            ),
            r is Err ==> final(self)@ == old(self)@ && r == Err::<KvCacheHandle, KvStoreError>(
                KvStoreError::EmptyBlock,
            ),
    {
        let ghost p = self@;
        let page: usize = match self.free_pages.pop() {
            None => {
                return Err(KvStoreError::EmptyBlock);
            },
            Some(page) => page,
        };
        proof {
            let b = self.bytes_per_token as nat;
            let n = token_len as nat;
            assert(n * b <= usize::MAX) by (nonlinear_arith)
                requires
                    b == 0 || n <= usize::MAX as nat / b,
            ;
            assert(token_len * self.bytes_per_token == n * b) by (nonlinear_arith)
                requires
                    n == token_len,
                    b == self.bytes_per_token,
            ;
        }
        let handle = KvCacheHandle { block_id: self.next_block_id, token_len };
        self.next_block_id = self.next_block_id + 1;
        let block = kv_store::KvBlock { handle, bytes: token_len * self.bytes_per_token };
        self.blocks.insert(handle.block_id, block);
        self.page_of.insert(handle.block_id, page);
        proof {
            let q = self@;
            let id = p.next_block_id;
            assert(!p.blocks.contains_key(id));
            assert(!p.blocks.dom().contains(id));
            assert(q == pool_taken(p, token_len));
            assert(q.blocks.dom() =~= q.page_of.dom());
            assert(p.free[p.free.len() - 1] == page);
            assert forall|k: u64| #[trigger] q.page_of.contains_key(k) implies q.page_of[k]
                < q.pool_pages && !q.free.contains(q.page_of[k]) by {
                if q.free.contains(q.page_of[k]) {
                    let j = q.free.index_of(q.page_of[k]);
                    assert(p.free[j] == q.page_of[k]);
                    assert(p.free.contains(p.free[j]));
                    if k != id {
                        assert(p.page_of.contains_key(k));
                    }
                }
                if k != id {
                    assert(p.page_of.contains_key(k));
                }
            }
            assert forall|a: u64, b: u64| #[trigger]
                q.page_of.contains_key(a) && #[trigger] q.page_of.contains_key(b) && a
                    != b implies q.page_of[a] != q.page_of[b] by {
                assert(p.free.contains(p.free[p.free.len() - 1]));
                if a != id {
                    assert(p.page_of.contains_key(a));
                }
                if b != id {
                    assert(p.page_of.contains_key(b));
                }
            }
            assert forall|k: u64| #[trigger] q.blocks.contains_key(k) implies k < q.next_block_id
                && q.blocks[k].handle.block_id == k by {
                if k != id {
                    assert(p.blocks.contains_key(k));
                }
            }
            assert forall|i: int| 0 <= i < q.free.len() implies #[trigger] q.free[i]
                < q.pool_pages by {
                assert(q.free[i] == p.free[i]);
            }
            assert forall|i: int, j: int|
                0 <= i < q.free.len() && 0 <= j < q.free.len() && i != j implies q.free[i]
                != q.free[j] by {
                assert(p.free[i] != p.free[j]);
            }
            assert(self.held() =~= old(self).held().insert(id, handle));
            kv_store::lemma_bytes_split(q.blocks, id);
            assert(q.blocks.remove(id) =~= p.blocks);
        }
        Ok(handle)
    }

    fn release(&mut self, handle: KvCacheHandle) -> (r: Result<(), KvStoreError>)
        ensures
            r is Ok <==> old(self)@.blocks.contains_key(handle.block_id),
            r is Ok ==> final(self)@ == pool_given_back(old(self)@, handle.block_id),
            r is Err ==> final(self)@ == old(self)@ && r == Err::<(), KvStoreError>(
                KvStoreError::UnknownBlock(handle),
            ),
    {
        let r: Result<(), KvStoreError> = self.release_block(handle);
        proof {
            if r is Ok {
                assert(self.held() =~= old(self).held().remove(handle.block_id));
                kv_store::lemma_bytes_split(old(self)@.blocks, handle.block_id);
            }
        }
        r
    }

    /// Returns the total number of bytes currently allocated in the pools.
    fn allocated_bytes(&self) -> (n: usize) {
        sum_bytes(&self.blocks)
    }
}


/// The page of a block that was given up is the next one to be taken.
pub proof fn given_up_pages_are_taken_next(p: PoolAccounts, id: u64, token_len: usize)
    requires
        p.wf(),
        p.blocks.contains_key(id),
    ensures
        ({
            let after = pool_taken(pool_given_back(p, id), token_len);
            after.page_of[p.next_block_id] == p.page_of[id] && after.block(p.next_block_id).offset
                == p.block(id).offset && after.free == p.free
        }),
{
    assert(p.free.push(p.page_of[id]).drop_last() =~= p.free);
}

/// A block takes as many bytes as its tokens do one by one, and its making leaves the
/// other blocks where they are.
pub proof fn blocks_are_as_large_as_their_tokens(
    p: PoolAccounts,
    a: usize,
    b: usize,
    other: u64,
)
    requires
        p.wf(),
        p.free.len() > 0,
        p.next_block_id < u64::MAX,
        (a + b) * p.bytes_per_token <= usize::MAX,
        a + b <= usize::MAX,
    ensures
        ({
            let id = p.next_block_id;
            let one = pool_taken(p, a);
            let two = pool_taken(p, b);
            let both = pool_taken(p, (a + b) as usize);
            &&& one.block(id).bytes + two.block(id).bytes == both.block(id).bytes
            &&& a == 1 ==> one.block(id).bytes == p.bytes_per_token
            &&& one.block(id).handle.token_len == a && one.block(id).handle.block_id == id
            &&& other != id && p.blocks.contains_key(other) ==> one.blocks.contains_key(other)
                && one.block(other) == p.block(other)
        }),
{
    let k = p.bytes_per_token;
    assert(a * k + b * k == (a + b) * k) by (nonlinear_arith);
    assert(a * k >= 0 && b * k >= 0) by (nonlinear_arith);
}

/// The buffers have room for every block in every layer, and nothing behind the last one.
pub proof fn buffers_hold_every_layer(p: PoolAccounts, id: u64, l: nat)
    requires
        p.wf(),
        p.blocks.contains_key(id),
        l < p.n_layer,
    ensures
        l * (p.pool_pages * p.page_bytes) + p.block(id).offset + p.page_bytes <= p.pool_bytes(),
        p.n_layer == 1 ==> p.pool_bytes() == p.pool_pages * p.page_bytes,
{
    let page = p.page_of[id] as int;
    let size = p.page_bytes as int;
    let pages = p.pool_pages as int;
    assert(p.page_of.contains_key(id));
    assert(page * size >= 0 && (page + 1) * size <= pages * size) by (nonlinear_arith)
        requires
            0 <= page,
            page + 1 <= pages,
            0 <= size,
    ;
    assert((page + 1) * size == page * size + size) by (nonlinear_arith);
    let layer = pages * size;
    assert((l + 1) * layer <= p.n_layer * layer) by (nonlinear_arith)
        requires
            l + 1 <= p.n_layer,
            0 <= layer,
    ;
    assert((l + 1) * layer == l * layer + layer) by (nonlinear_arith);
    if p.n_layer == 1 {
        assert(p.n_layer * layer == layer) by (nonlinear_arith)
            requires
                p.n_layer == 1,
        ;
    }
}
} // verus!
