//! Key-Value store for persisting and retrieving cached sequences.

use std::collections::BTreeMap;
use vstd::prelude::*;
use vstd::string::*;
use crate::radix_cache::KvCacheHandle;
use crate::text::text_with_numbers;

verus! {

broadcast use vstd::std_specs::btree::group_btree_axioms;

/// One allocated block: its handle and its size.
#[derive(Debug, Clone, Copy, PartialEq, Eq, Structural)]
pub struct KvBlock {
    pub handle: KvCacheHandle,
    pub bytes: usize,
}

#[derive(Debug, Clone, Copy, PartialEq, Eq, Structural)]
pub enum KvStoreError {
    EmptyBlock,
    UnknownBlock(KvCacheHandle),
}

impl KvStoreError {
    /// The message of the error.
    pub open spec fn text(self) -> Seq<char> {
        match self {
            KvStoreError::EmptyBlock => "KV block must contain at least one token"@,
            KvStoreError::UnknownBlock(handle) => "unknown KV block "@ + crate::text::decimal(
                handle.block_id as nat,
            ) + " with "@ + crate::text::decimal(handle.token_len as nat) + " tokens"@,
        }
    }

    pub fn to_string(&self) -> (s: String)
        ensures
            s@ == self.text(),
    {
        match self {
            KvStoreError::EmptyBlock => String::from_str(
                "KV block must contain at least one token",
            ),
            KvStoreError::UnknownBlock(handle) => text_with_numbers(
                "unknown KV block ",
                handle.block_id,
                " with ",
                handle.token_len as u64,
                " tokens",
            ),
        }
    }
}

/// The bytes of all blocks of `blocks` together.
pub open spec fn bytes_in(blocks: Map<u64, KvBlock>) -> nat
    decreases blocks.dom().len(),
    when blocks.dom().finite()
{
    if blocks.dom().len() == 0 {
        0
    } else {
        let id = blocks.dom().choose();
        blocks[id].bytes as nat + bytes_in(blocks.remove(id))
    }
}

/// A store of KV blocks that are found again by the handle they came with.
///
/// The spec functions describe it. They say nothing unless an implementation
/// defines them.
pub trait KvStore {
    /// The blocks in the store, by their number.
    open spec fn blocks(&self) -> Map<u64, KvBlock> {
        vstd::pervasive::arbitrary()
    }

    /// The numbers that are still to be handed out.
    open spec fn numbers_left(&self) -> nat {
        vstd::pervasive::arbitrary()
    }

    /// The size of a block of `token_len` tokens.
    open spec fn block_bytes(&self, token_len: usize) -> nat {
        vstd::pervasive::arbitrary()
    }

    /// What the store keeps.
    open spec fn wf(&self) -> bool {
        vstd::pervasive::arbitrary()
    }

    fn allocate(&mut self, token_len: usize) -> (r: Result<KvCacheHandle, KvStoreError>)
        requires
            old(self).wf(),
            token_len > 0 ==> old(self).numbers_left() > 0 && old(self).block_bytes(token_len)
                <= usize::MAX,
        ensures
            final(self).wf(),
            forall|n: usize| final(self).block_bytes(n) == old(self).block_bytes(n),
            token_len == 0 ==> r == Err::<KvCacheHandle, KvStoreError>(KvStoreError::EmptyBlock)
                && final(self).blocks() == old(self).blocks() && final(self).numbers_left()
                == old(self).numbers_left(),
            token_len > 0 ==> r is Ok && r->Ok_0.token_len == token_len
                && !old(self).blocks().contains_key(r->Ok_0.block_id) && final(self).blocks()
                == old(self).blocks().insert(
                r->Ok_0.block_id,
                KvBlock { handle: r->Ok_0, bytes: old(self).block_bytes(token_len) as usize },
            ) && final(self).numbers_left() == old(self).numbers_left() - 1,
    ;

    fn get(&self, handle: KvCacheHandle) -> (r: Option<&KvBlock>)
        requires
            self.wf(),
        ensures
            r is Some <==> self.blocks().contains_key(handle.block_id)
                && self.blocks()[handle.block_id].handle == handle,
            r is Some ==> *r->0 == self.blocks()[handle.block_id],
    ;

    fn release(&mut self, handle: KvCacheHandle) -> (r: Result<(), KvStoreError>)
        requires
            old(self).wf(),
        ensures
            final(self).wf(),
            forall|n: usize| final(self).block_bytes(n) == old(self).block_bytes(n),
            final(self).numbers_left() == old(self).numbers_left(),
            ({
                let known = old(self).blocks().contains_key(handle.block_id)
                    && old(self).blocks()[handle.block_id].handle == handle;
                &&& known ==> r is Ok && final(self).blocks() == old(self).blocks().remove(
                    handle.block_id,
                )
                &&& !known ==> r == Err::<(), KvStoreError>(KvStoreError::UnknownBlock(handle))
                    && final(self).blocks() == old(self).blocks()
            }),
    ;
}

/// A store that only accounts for its blocks. Blocks are numbered from 1 on.
#[derive(Debug, Clone)]
pub struct InMemoryKvStore {
    next_block_id: u64,
    bytes_per_token: usize,
    blocks: BTreeMap<u64, KvBlock>,
}

impl InMemoryKvStore {
    /// The number of the next block.
    pub closed spec fn next_id(&self) -> u64 {
        self.next_block_id
    }

    /// The bytes that one token takes.
    pub closed spec fn token_bytes(&self) -> usize {
        self.bytes_per_token
    }

    pub fn new(bytes_per_token: usize) -> (store: Self)
        ensures
            store.wf(),
            store.blocks() == Map::<u64, KvBlock>::empty(),
            store.next_id() == 1,
            store.token_bytes() == bytes_per_token,
            store.numbers_left() == u64::MAX - 1,
    {
        InMemoryKvStore { next_block_id: 1, bytes_per_token, blocks: BTreeMap::new() }
    }

    pub fn len(&self) -> (n: usize)
        ensures
            n == self.blocks().dom().len(),
    {
        self.blocks.len()
    }

    pub fn is_empty(&self) -> (empty: bool)
        ensures
            empty == (self.blocks().dom().len() == 0),
    {
        self.blocks.len() == 0
    }

    pub fn allocated_bytes(&self) -> (n: usize)
        requires
            bytes_in(self.blocks()) <= usize::MAX,
        ensures
            n == bytes_in(self.blocks()),
    {
        sum_bytes(&self.blocks)
    }
}

/// The bytes of all blocks of a table.
pub fn sum_bytes(blocks: &BTreeMap<u64, KvBlock>) -> (n: usize)
    requires
        bytes_in(blocks@) <= usize::MAX,
    ensures
        n == bytes_in(blocks@),
{
    let ghost all = blocks@;
    let mut total: usize = 0;
    let ghost mut rest = all;
    for id in it: blocks.keys()
        invariant
            all == blocks@,
            bytes_in(all) <= usize::MAX,
            it.seq().no_duplicates(),
            it.seq().unref().to_set() == all.dom(),
            rest.dom().finite(),
            rest.submap_of(all),
            forall|k: u64| #[trigger]
                rest.contains_key(k) <==> (all.contains_key(k) && forall|j: int|
                    0 <= j < it.index() ==> *(#[trigger] it.seq()[j]) != k),
            rest.dom().len() + it.index() == it.seq().len(),
            total + bytes_in(rest) == bytes_in(all),
    {
        proof {
            let s = it.seq();
            let j = it.index() as int;
            assert(s.unref()[j] == *id);
            assert(s.unref().to_set().contains(*id));
            assert(all.contains_key(*id));
            assert forall|i: int| 0 <= i < j implies *(#[trigger] s[i]) != *id by {
                assert(s[i] != s[j]);
            }
            assert(rest.contains_key(*id));
            lemma_bytes_split(rest, *id);
        }
        match blocks.get(id) {
            Some(block) => {
                total = total + block.bytes;
            },
            None => {},
        }
        proof {
            rest = rest.remove(*id);
        }
    }
    total
}

/// A store holds finitely many blocks.
pub proof fn blocks_are_finite(store: InMemoryKvStore)
    ensures
        store.blocks().dom().finite(),
{
}

/// Taking one block out leaves the bytes of the others.
pub proof fn lemma_bytes_split(blocks: Map<u64, KvBlock>, id: u64)
    requires
        blocks.dom().finite(),
        blocks.contains_key(id),
    ensures
        bytes_in(blocks) == blocks[id].bytes + bytes_in(blocks.remove(id)),
    decreases blocks.dom().len(),
{
    let c = blocks.dom().choose();
    assert(blocks.dom().contains(id));
    assert(blocks.dom().len() > 0);
    if c != id {
        lemma_bytes_split(blocks.remove(c), id);
        lemma_bytes_split(blocks.remove(id), c);
        assert(blocks.remove(c).remove(id) =~= blocks.remove(id).remove(c));
    }
}

impl KvStore for InMemoryKvStore {
    closed spec fn blocks(&self) -> Map<u64, KvBlock> {
        self.blocks@
    }

    closed spec fn numbers_left(&self) -> nat {
        (u64::MAX - self.next_block_id) as nat
    }

    open spec fn block_bytes(&self, token_len: usize) -> nat {
        token_len as nat * self.token_bytes() as nat
    }

    /// Only numbers below the next one are in use, and a block is filed under
    /// its own number.
    closed spec fn wf(&self) -> bool {
        forall|id: u64| #[trigger]
            self.blocks@.contains_key(id) ==> id < self.next_block_id
                && self.blocks@[id].handle.block_id == id
    }

    fn allocate(&mut self, token_len: usize) -> (r: Result<KvCacheHandle, KvStoreError>)
        ensures
            token_len > 0 ==> r->Ok_0.block_id == old(self).next_id() && final(self).next_id()
                == old(self).next_id() + 1,
            token_len == 0 ==> final(self).next_id() == old(self).next_id(),
            final(self).token_bytes() == old(self).token_bytes(),
    {
        if token_len == 0 {
            return Err(KvStoreError::EmptyBlock);
        }
        let handle = KvCacheHandle { block_id: self.next_block_id, token_len };
        self.next_block_id = self.next_block_id + 1;

        assert(token_len as nat * self.bytes_per_token as nat == token_len * self.bytes_per_token)
            by (nonlinear_arith);
        let block = KvBlock { handle, bytes: token_len * self.bytes_per_token };
        self.blocks.insert(handle.block_id, block);

        Ok(handle)
    }

    fn get(&self, handle: KvCacheHandle) -> (r: Option<&KvBlock>) {
        match self.blocks.get(&handle.block_id) {
            Some(block) => if block.handle == handle {
                Some(block)
            } else {
                None
            },
            None => None,
        }
    }

    fn release(&mut self, handle: KvCacheHandle) -> (r: Result<(), KvStoreError>)
        ensures
            final(self).next_id() == old(self).next_id(),
            final(self).token_bytes() == old(self).token_bytes(),
    {
        match self.blocks.remove(&handle.block_id) {
            None => Err(KvStoreError::UnknownBlock(handle)),
            Some(block) => {
                if block.handle != handle {
                    self.blocks.insert(block.handle.block_id, block);
                    assert(self.blocks@ =~= old(self).blocks@);
                    return Err(KvStoreError::UnknownBlock(handle));
                }
                Ok(())
            },
        }
    }
}

/// Accounting: allocating a block adds its bytes, releasing it takes the same
/// bytes away again and leaves the store as it was.
pub proof fn allocate_then_release(blocks: Map<u64, KvBlock>, block: KvBlock)
    requires
        blocks.dom().finite(),
        !blocks.contains_key(block.handle.block_id),
    ensures
        ({
            let id = block.handle.block_id;
            &&& bytes_in(blocks.insert(id, block)) == bytes_in(blocks) + block.bytes
            &&& blocks.insert(id, block).remove(id) == blocks
        }),
{
    let id = block.handle.block_id;
    assert(blocks.insert(id, block).remove(id) =~= blocks);
    lemma_bytes_split(blocks.insert(id, block), id);
}


/// A block of a sum of tokens is as large as the blocks of its parts together, and one
/// token takes what the store was made for.
pub proof fn blocks_are_as_large_as_their_tokens(store: InMemoryKvStore, a: usize, b: usize)
    requires
        a + b <= usize::MAX,
    ensures
        store.block_bytes((a + b) as usize) == store.block_bytes(a) + store.block_bytes(b),
        store.block_bytes(1) == store.token_bytes(),
        store.block_bytes(0) == 0,
{
    let k = store.token_bytes();
    assert((a + b) * k == a * k + b * k) by (nonlinear_arith);
}
} // verus!
