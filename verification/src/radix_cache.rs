//! Radix-tree based prefix cache for reusing KV blocks across requests.
//!
//! The tree stores token sequences; a node may hold the handle of the KV block
//! of the sequence that leads to it. Seen from outside, a cache is the list of
//! its nodes in the order in which they came into being, each with its prefix,
//! its handle and the time of its last use.

use std::collections::BTreeMap;
use vstd::prelude::*;

verus! {

broadcast use vstd::std_specs::btree::group_btree_axioms;

pub type TokenId = u32;

/// A reference to one KV block and the number of tokens it covers.
#[derive(Debug, Clone, Copy, PartialEq, Eq, Hash, Structural)]
pub struct KvCacheHandle {
    pub block_id: u64,
    pub token_len: usize,
}

/// The longest cached prefix of a looked up sequence.
#[derive(Debug, Clone, Copy, PartialEq, Eq, Structural)]
pub struct CacheLookup {
    pub matched_tokens: usize,
    pub handle: Option<KvCacheHandle>,
}

/// What an insertion did.
#[derive(Debug, Clone, Copy, PartialEq, Eq, Structural)]
pub struct CacheInsert {
    pub inserted_tokens: usize,
    pub replaced: Option<KvCacheHandle>,
    pub handle: KvCacheHandle,
}

/// The handles that an eviction dropped, coldest first.
#[derive(Debug, Clone, PartialEq, Eq)]
pub struct CacheEviction {
    pub evicted: Vec<KvCacheHandle>,
}

#[derive(Debug)]
struct Node {
    edge: Vec<TokenId>,
    children: BTreeMap<TokenId, usize>,
    handle: Option<KvCacheHandle>,
    last_access_tick: u64,
    hit_count: usize,
}

/// A prefix cache with an optional limit on the tokens it keeps resident.
pub struct RadixCache {
    nodes: Vec<Node>,
    capacity_tokens: Option<usize>,
    resident_tokens: usize,
    clock: u64,
    paths: Ghost<Seq<Seq<TokenId>>>,
}

/// One node as seen from outside.
pub struct CacheEntry {
    pub prefix: Seq<TokenId>,
    pub handle: Option<KvCacheHandle>,
    pub tick: u64,
}

/// A cache as seen from outside. The first entry is the empty prefix.
pub struct CacheModel {
    pub entries: Seq<CacheEntry>,
    pub capacity: Option<usize>,
    pub clock: u64,
}

// ---------------------------------------------------------------------------
// Model
// ---------------------------------------------------------------------------

/// The next reading of the cache's clock, which stops at its last value.
pub open spec fn tick_after(clock: u64) -> u64 {
    if clock == u64::MAX {
        clock
    } else {
        (clock + 1) as u64
    }
}

/// The tokens that the handles among `entries` cover, each handle counted once.
pub open spec fn tokens_resident(entries: Seq<CacheEntry>) -> nat
    decreases entries.len(),
{
    if entries.len() == 0 {
        0
    } else {
        tokens_resident(entries.drop_last()) + match entries.last().handle {
            Some(h) => h.token_len as nat,
            None => 0,
        }
    }
}

/// How many of `entries` hold a handle.
pub open spec fn handles_held(entries: Seq<CacheEntry>) -> nat
    decreases entries.len(),
{
    if entries.len() == 0 {
        0
    } else {
        handles_held(entries.drop_last()) + if entries.last().handle is Some {
            1nat
        } else {
            0
        }
    }
}

/// Whether no entry was used later than the clock says.
pub open spec fn timely(entries: Seq<CacheEntry>, clock: u64) -> bool {
    forall|i: int| 0 <= i < entries.len() ==> (#[trigger] entries[i]).tick <= clock
}

/// Whether some entry has exactly the prefix `p`.
pub open spec fn has_entry(entries: Seq<CacheEntry>, p: Seq<TokenId>) -> bool {
    exists|i: int| 0 <= i < entries.len() && #[trigger] entries[i].prefix == p
}

/// The position of the entry with prefix `p`.
pub open spec fn entry_of(entries: Seq<CacheEntry>, p: Seq<TokenId>) -> int {
    choose|i: int| 0 <= i < entries.len() && #[trigger] entries[i].prefix == p
}

/// Whether `p` runs along some entry's prefix.
pub open spec fn runs_along(entries: Seq<CacheEntry>, p: Seq<TokenId>) -> bool {
    exists|i: int| 0 <= i < entries.len() && p.is_prefix_of(#[trigger] entries[i].prefix)
}

/// The length of the longest prefix of `tokens` that runs along some entry.
pub open spec fn shared_len(entries: Seq<CacheEntry>, tokens: Seq<TokenId>, upto: nat) -> nat
    decreases upto,
{
    if upto == 0 || runs_along(entries, tokens.take(upto as int)) {
        upto
    } else {
        shared_len(entries, tokens, (upto - 1) as nat)
    }
}

/// The entries after room for `tokens` was made: the point at which `tokens`
/// leaves the known prefixes becomes an entry, and so does `tokens` itself.
pub open spec fn grown(entries: Seq<CacheEntry>, tokens: Seq<TokenId>, tick: u64) -> Seq<
    CacheEntry,
> {
    let shared = tokens.take(shared_len(entries, tokens, tokens.len()) as int);
    let branched = if has_entry(entries, shared) {
        entries
    } else {
        entries.push(CacheEntry { prefix: shared, handle: None, tick })
    };
    if shared.len() == tokens.len() {
        branched
    } else {
        branched.push(CacheEntry { prefix: tokens, handle: None, tick })
    }
}

/// The entries with a handle put on `tokens`, before any eviction.
pub open spec fn stored(
    entries: Seq<CacheEntry>,
    tokens: Seq<TokenId>,
    handle: KvCacheHandle,
    tick: u64,
) -> Seq<CacheEntry> {
    let room = grown(entries.update(0, CacheEntry { tick, ..entries[0] }), tokens, tick);
    room.update(
        entry_of(room, tokens),
        CacheEntry { prefix: tokens, handle: Some(handle), tick },
    )
}

/// The handle on `tokens`, if there is one.
pub open spec fn handle_on(entries: Seq<CacheEntry>, tokens: Seq<TokenId>) -> Option<
    KvCacheHandle,
> {
    if has_entry(entries, tokens) {
        entries[entry_of(entries, tokens)].handle
    } else {
        None
    }
}

/// The entries after a lookup: every entry on the way of `tokens` is touched.
pub open spec fn touched(entries: Seq<CacheEntry>, tokens: Seq<TokenId>, tick: u64) -> Seq<
    CacheEntry,
> {
    entries.map_values(
        |e: CacheEntry|
            if e.prefix.is_prefix_of(tokens) {
                CacheEntry { tick, ..e }
            } else {
                e
            },
    )
}

/// A cache that holds nothing: only the root, without a handle.
pub open spec fn empty_cache() -> CacheModel {
    CacheModel {
        entries: seq![CacheEntry { prefix: Seq::empty(), handle: None, tick: 0 }],
        capacity: None,
        clock: 1,
    }
}

/// The longest prefix of `tokens` of length at most `upto` with a handle.
pub open spec fn longest_cached(
    entries: Seq<CacheEntry>,
    tokens: Seq<TokenId>,
    upto: nat,
) -> CacheLookup
    decreases upto,
{
    match handle_on(entries, tokens.take(upto as int)) {
        Some(h) => CacheLookup { matched_tokens: upto as usize, handle: Some(h) },
        None => if upto == 0 {
            CacheLookup { matched_tokens: 0, handle: None }
        } else {
            longest_cached(entries, tokens, (upto - 1) as nat)
        },
    }
}

/// Whether entry `i` holds the coldest handle: no handle was used longer ago,
/// and among those used as long ago the oldest entry comes first.
pub open spec fn is_coldest(entries: Seq<CacheEntry>, i: int) -> bool {
    &&& 0 <= i < entries.len()
    &&& entries[i].handle is Some
    &&& forall|j: int|
        0 <= j < entries.len() && (#[trigger] entries[j]).handle is Some ==> entries[i].tick
            < entries[j].tick || (entries[i].tick == entries[j].tick && i <= j)
}

/// The position of the coldest handle.
pub open spec fn coldest(entries: Seq<CacheEntry>) -> int {
    choose|i: int| is_coldest(entries, i)
}

/// The entries without the handle of entry `i`.
pub open spec fn dropped(entries: Seq<CacheEntry>, i: int) -> Seq<CacheEntry> {
    entries.update(i, CacheEntry { handle: None, ..entries[i] })
}

/// Drops the coldest handle until `need` tokens are free or no handle is left:
/// the remaining entries, and the dropped handles in order.
pub open spec fn evicted(entries: Seq<CacheEntry>, need: nat) -> (
    Seq<CacheEntry>,
    Seq<KvCacheHandle>,
)
    decreases handles_held(entries),
    via evicted_decreases
{
    if need == 0 || handles_held(entries) == 0 {
        (entries, Seq::empty())
    } else {
        let i = coldest(entries);
        let h = entries[i].handle->0;
        let (rest, more) = evicted(
            dropped(entries, i),
            if h.token_len >= need {
                0
            } else {
                (need - h.token_len) as nat
            },
        );
        (rest, seq![h] + more)
    }
}

/// The entries after eviction down to `capacity`.
pub open spec fn trimmed(entries: Seq<CacheEntry>, capacity: Option<usize>) -> Seq<CacheEntry> {
    match capacity {
        Some(c) if tokens_resident(entries) > c => evicted(
            entries,
            (tokens_resident(entries) - c) as nat,
        ).0,
        _ => entries,
    }
}

#[via_fn]
proof fn evicted_decreases(entries: Seq<CacheEntry>, need: nat) {
    if need != 0 && handles_held(entries) != 0 {
        lemma_coldest_exists(entries);
        lemma_drop_counts(entries, coldest(entries));
    }
}

// ---------------------------------------------------------------------------
// Facts about the model
// ---------------------------------------------------------------------------

proof fn lemma_no_handle(entries: Seq<CacheEntry>)
    requires
        handles_held(entries) == 0,
    ensures
        forall|i: int| 0 <= i < entries.len() ==> (#[trigger] entries[i]).handle is None,
        tokens_resident(entries) == 0,
    decreases entries.len(),
{
    if entries.len() > 0 {
        lemma_no_handle(entries.drop_last());
        assert forall|i: int| 0 <= i < entries.len() implies (#[trigger] entries[i]).handle is None by {
            if i < entries.len() - 1 {
                assert(entries.drop_last()[i] == entries[i]);
            }
        }
    }
}

/// The first `n` entries' coldest handle.
proof fn lemma_coldest_from(entries: Seq<CacheEntry>, n: int) -> (i: int)
    requires
        0 <= n <= entries.len(),
        handles_held(entries.take(n)) > 0,
    ensures
        0 <= i < n,
        entries[i].handle is Some,
        forall|j: int|
            0 <= j < n && (#[trigger] entries[j]).handle is Some ==> entries[i].tick
                < entries[j].tick || (entries[i].tick == entries[j].tick && i <= j),
    decreases n,
{
    let front = entries.take(n);
    assert(front.drop_last() =~= entries.take(n - 1));
    if handles_held(entries.take(n - 1)) == 0 {
        lemma_no_handle(entries.take(n - 1));
        assert forall|j: int| 0 <= j < n - 1 implies (#[trigger] entries[j]).handle is None by {
            assert(entries.take(n - 1)[j] == entries[j]);
        }
        n - 1
    } else {
        let k = lemma_coldest_from(entries, n - 1);
        if entries[n - 1].handle is Some && entries[n - 1].tick < entries[k].tick {
            n - 1
        } else {
            k
        }
    }
}

proof fn lemma_coldest_exists(entries: Seq<CacheEntry>)
    requires
        handles_held(entries) > 0,
    ensures
        is_coldest(entries, coldest(entries)),
{
    assert(entries.take(entries.len() as int) =~= entries);
    let i = lemma_coldest_from(entries, entries.len() as int);
    assert(is_coldest(entries, i));
}

proof fn lemma_coldest_unique(entries: Seq<CacheEntry>, i: int)
    requires
        is_coldest(entries, i),
    ensures
        coldest(entries) == i,
{
    let j = coldest(entries);
    assert(is_coldest(entries, j));
    assert(entries[i].handle is Some && entries[j].handle is Some);
}

/// Replacing one entry changes the totals by the difference of the two.
proof fn lemma_update_counts(entries: Seq<CacheEntry>, i: int, e: CacheEntry)
    requires
        0 <= i < entries.len(),
    ensures
        handles_held(entries.update(i, e)) == handles_held(entries) - (if entries[i].handle is Some {
            1int
        } else {
            0
        }) + (if e.handle is Some {
            1int
        } else {
            0
        }),
        tokens_resident(entries.update(i, e)) == tokens_resident(entries) - (match entries[i].handle {
            Some(h) => h.token_len as int,
            None => 0,
        }) + (match e.handle {
            Some(h) => h.token_len as int,
            None => 0,
        }),
    decreases entries.len(),
{
    let after = entries.update(i, e);
    if i == entries.len() - 1 {
        assert(after.drop_last() =~= entries.drop_last());
    } else {
        assert(after.drop_last() =~= entries.drop_last().update(i, e));
        lemma_update_counts(entries.drop_last(), i, e);
    }
}

proof fn lemma_drop_counts(entries: Seq<CacheEntry>, i: int)
    requires
        0 <= i < entries.len(),
        entries[i].handle is Some,
    ensures
        handles_held(dropped(entries, i)) == handles_held(entries) - 1,
        tokens_resident(dropped(entries, i)) == tokens_resident(entries)
            - entries[i].handle->0.token_len,
{
    lemma_update_counts(entries, i, CacheEntry { handle: None, ..entries[i] });
}

proof fn lemma_push_counts(entries: Seq<CacheEntry>, e: CacheEntry)
    requires
        e.handle is None,
    ensures
        handles_held(entries.push(e)) == handles_held(entries),
        tokens_resident(entries.push(e)) == tokens_resident(entries),
{
    assert(entries.push(e).drop_last() =~= entries);
}

/// Totals look only at the handles.
pub proof fn lemma_same_handles(a: Seq<CacheEntry>, b: Seq<CacheEntry>)
    requires
        a.len() == b.len(),
        forall|i: int| 0 <= i < a.len() ==> (#[trigger] a[i]).handle == b[i].handle,
    ensures
        handles_held(a) == handles_held(b),
        tokens_resident(a) == tokens_resident(b),
    decreases a.len(),
{
    if a.len() > 0 {
        assert forall|i: int| 0 <= i < a.len() - 1 implies (#[trigger] a.drop_last()[i]).handle
            == b.drop_last()[i].handle by {
            assert(a[i].handle == b[i].handle);
        }
        lemma_same_handles(a.drop_last(), b.drop_last());
        assert(a[a.len() - 1].handle == b[b.len() - 1].handle);
    }
}

proof fn lemma_handle_within_total(entries: Seq<CacheEntry>, i: int)
    requires
        0 <= i < entries.len(),
        entries[i].handle is Some,
    ensures
        entries[i].handle->0.token_len <= tokens_resident(entries),
{
    lemma_drop_counts(entries, i);
}


// ---------------------------------------------------------------------------
// The tree behind the model
// ---------------------------------------------------------------------------

broadcast proof fn lemma_prefix_elements(p: Seq<TokenId>, q: Seq<TokenId>)
    ensures
        #[trigger] p.is_prefix_of(q) <==> p.len() <= q.len() && forall|k: int|
            0 <= k < p.len() ==> p[k] == q[k],
{
    if p.is_prefix_of(q) {
        assert forall|k: int| 0 <= k < p.len() implies p[k] == q[k] by {
            assert(q.subrange(0, p.len() as int)[k] == q[k]);
        }
    }
    if p.len() <= q.len() && (forall|k: int| 0 <= k < p.len() ==> p[k] == q[k]) {
        assert(p =~= q.subrange(0, p.len() as int));
    }
}

/// Whether `q` lies strictly below `p`.
spec fn below(p: Seq<TokenId>, q: Seq<TokenId>) -> bool {
    p.len() < q.len() && p.is_prefix_of(q)
}

spec fn paths_ok(paths: Seq<Seq<TokenId>>) -> bool {
    &&& paths.len() >= 1
    &&& paths[0] == Seq::<TokenId>::empty()
    &&& forall|i: int, j: int|
        0 <= i < paths.len() && 0 <= j < paths.len() && #[trigger] paths[i] == #[trigger] paths[j]
            ==> i == j
}

/// Every child link leads one edge down.
spec fn links_down(nodes: Seq<Node>, paths: Seq<Seq<TokenId>>) -> bool {
    forall|i: int, t: TokenId|
        0 <= i < nodes.len() && #[trigger] nodes[i].children@.contains_key(t) ==> {
            let c = nodes[i].children@[t] as int;
            &&& 0 <= c < nodes.len()
            &&& below(paths[i], paths[c])
            &&& paths[c][paths[i].len() as int] == t
            &&& nodes[c].edge@ == paths[c].skip(paths[i].len() as int)
        }
}

/// Every node below another is reached through a child link of the upper one.
spec fn links_reach(nodes: Seq<Node>, paths: Seq<Seq<TokenId>>) -> bool {
    forall|i: int, j: int|
        0 <= i < nodes.len() && 0 <= j < nodes.len() && #[trigger] below(paths[i], paths[j]) ==> {
            let t = paths[j][paths[i].len() as int];
            &&& nodes[i].children@.contains_key(t)
            &&& paths[nodes[i].children@[t] as int].is_prefix_of(paths[j])
        }
}

spec fn handles_fit(nodes: Seq<Node>, paths: Seq<Seq<TokenId>>) -> bool {
    forall|i: int|
        0 <= i < nodes.len() && (#[trigger] nodes[i]).handle is Some
            ==> nodes[i].handle->0.token_len == paths[i].len()
}

spec fn linked(nodes: Seq<Node>, paths: Seq<Seq<TokenId>>) -> bool {
    &&& nodes.len() == paths.len()
    &&& paths_ok(paths)
    &&& links_down(nodes, paths)
    &&& links_reach(nodes, paths)
    &&& handles_fit(nodes, paths)
}

spec fn entry_at(nodes: Seq<Node>, paths: Seq<Seq<TokenId>>, i: int) -> CacheEntry {
    CacheEntry { prefix: paths[i], handle: nodes[i].handle, tick: nodes[i].last_access_tick }
}

spec fn entries_of(nodes: Seq<Node>, paths: Seq<Seq<TokenId>>) -> Seq<CacheEntry> {
    Seq::new(nodes.len(), |i: int| entry_at(nodes, paths, i))
}

/// The same tree with other handles, ticks and counters.
spec fn same_shape(a: Seq<Node>, b: Seq<Node>) -> bool {
    &&& a.len() == b.len()
    &&& forall|i: int|
        0 <= i < a.len() ==> (#[trigger] a[i]).children@ == b[i].children@ && a[i].edge@
            == b[i].edge@
}

proof fn lemma_same_shape_links(a: Seq<Node>, b: Seq<Node>, paths: Seq<Seq<TokenId>>)
    requires
        links_down(a, paths),
        links_reach(a, paths),
        same_shape(a, b),
    ensures
        links_down(b, paths),
        links_reach(b, paths),
{
    assert forall|i: int, t: TokenId|
        0 <= i < b.len() && #[trigger] b[i].children@.contains_key(t) implies {
        let c = b[i].children@[t] as int;
        &&& 0 <= c < b.len()
        &&& below(paths[i], paths[c])
        &&& paths[c][paths[i].len() as int] == t
        &&& b[c].edge@ == paths[c].skip(paths[i].len() as int)
    } by {
        assert(a[i].children@ == b[i].children@);
        assert(a[i].children@.contains_key(t));
        let c = a[i].children@[t] as int;
        assert(a[c].edge@ == b[c].edge@);
    }
    assert forall|i: int, j: int|
        0 <= i < b.len() && 0 <= j < b.len() && #[trigger] below(paths[i], paths[j]) implies {
        let t = paths[j][paths[i].len() as int];
        &&& b[i].children@.contains_key(t)
        &&& paths[b[i].children@[t] as int].is_prefix_of(paths[j])
    } by {
        assert(a[i].children@ == b[i].children@);
    }
}

/// `shared_len` is the length at which `tokens` leaves the entries.
proof fn lemma_shared_len(entries: Seq<CacheEntry>, tokens: Seq<TokenId>, k: nat, upto: nat)
    requires
        k <= upto <= tokens.len(),
        k == 0 || runs_along(entries, tokens.take(k as int)),
        k < tokens.len() ==> !runs_along(entries, tokens.take(k as int + 1)),
    ensures
        shared_len(entries, tokens, upto) == k,
    decreases upto,
{
    broadcast use lemma_prefix_elements;

    if upto > k {
        if runs_along(entries, tokens.take(upto as int)) {
            let i = choose|i: int|
                0 <= i < entries.len() && tokens.take(upto as int).is_prefix_of(
                    #[trigger] entries[i].prefix,
                );
            assert forall|m: int| 0 <= m < k + 1 implies tokens.take(k as int + 1)[m]
                == entries[i].prefix[m] by {
                assert(tokens.take(upto as int)[m] == entries[i].prefix[m]);
            }
            assert(tokens.take(k as int + 1).is_prefix_of(entries[i].prefix));
        }
        lemma_shared_len(entries, tokens, k, (upto - 1) as nat);
    }
}

/// Between `lo` and `upto` no prefix of `tokens` has a handle.
proof fn lemma_longest_cached_skips(
    entries: Seq<CacheEntry>,
    tokens: Seq<TokenId>,
    lo: nat,
    upto: nat,
)
    requires
        lo <= upto <= tokens.len(),
        forall|k: int|
            lo < k <= upto ==> handle_on(entries, #[trigger] tokens.take(k)) is None,
    ensures
        longest_cached(entries, tokens, upto) == longest_cached(entries, tokens, lo),
    decreases upto,
{
    if upto > lo {
        assert(handle_on(entries, tokens.take(upto as int)) is None);
        lemma_longest_cached_skips(entries, tokens, lo, (upto - 1) as nat);
    }
}

/// With distinct prefixes the entry of a prefix is the one that has it.
proof fn lemma_entry_of(entries: Seq<CacheEntry>, i: int)
    requires
        0 <= i < entries.len(),
        forall|a: int, b: int|
            0 <= a < entries.len() && 0 <= b < entries.len() && #[trigger] entries[a].prefix
                == #[trigger] entries[b].prefix ==> a == b,
    ensures
        has_entry(entries, entries[i].prefix),
        entry_of(entries, entries[i].prefix) == i,
{
    let p = entries[i].prefix;
    assert(entries[i].prefix == p);
    let j = entry_of(entries, p);
    assert(0 <= j < entries.len() && entries[j].prefix == p);
}

/// No node strictly between node `i` and its child `c` lies on the way of `tokens`.
proof fn lemma_nothing_between(
    nodes: Seq<Node>,
    paths: Seq<Seq<TokenId>>,
    tokens: Seq<TokenId>,
    i: int,
    j: int,
)
    requires
        linked(nodes, paths),
        0 <= i < nodes.len(),
        0 <= j < nodes.len(),
        paths[i].is_prefix_of(tokens),
        paths[j].is_prefix_of(tokens),
        paths[i].len() < paths[j].len(),
    ensures
        nodes[i].children@.contains_key(tokens[paths[i].len() as int]),
        paths[nodes[i].children@[tokens[paths[i].len() as int]] as int].is_prefix_of(paths[j]),
        paths[nodes[i].children@[tokens[paths[i].len() as int]] as int].is_prefix_of(tokens),
{
    broadcast use lemma_prefix_elements;

    assert(below(paths[i], paths[j]));
}

/// The number of leading tokens that `tokens`, from `at` on, and `edge` share.
fn common_prefix_len(tokens: &[TokenId], at: usize, edge: &Vec<TokenId>) -> (n: usize)
    requires
        at <= tokens@.len(),
    ensures
        n <= edge@.len(),
        at + n <= tokens@.len(),
        forall|k: int| 0 <= k < n ==> tokens@[at + k] == edge@[k],
        n < edge@.len() && at + n < tokens@.len() ==> tokens@[at + n] != edge@[n as int],
{
    let mut n: usize = 0;
    while n < edge.len() && n < tokens.len() - at && tokens[at + n] == edge[n]
        invariant
            at <= tokens@.len(),
            n <= edge@.len(),
            at + n <= tokens@.len(),
            forall|k: int| 0 <= k < n ==> tokens@[at + k] == edge@[k],
        decreases edge@.len() - n,
    {
        n = n + 1;
    }
    n
}

impl View for RadixCache {
    type V = CacheModel;

    closed spec fn view(&self) -> CacheModel {
        CacheModel {
            entries: entries_of(self.nodes@, self.paths@),
            capacity: self.capacity_tokens,
            clock: self.clock,
        }
    }
}

impl RadixCache {
    /// The tree is well linked, nothing was used later than now, and the token
    /// count is right.
    pub closed spec fn wf(&self) -> bool {
        &&& linked(self.nodes@, self.paths@)
        &&& timely(entries_of(self.nodes@, self.paths@), self.clock)
        &&& self.resident_tokens == tokens_resident(entries_of(self.nodes@, self.paths@))
    }

    pub fn new() -> (cache: Self)
        ensures
            cache.wf(),
            cache@ == empty_cache(),
    {
        let mut nodes: Vec<Node> = Vec::new();
        nodes.push(
            Node {
                edge: Vec::new(),
                children: BTreeMap::new(),
                handle: None,
                last_access_tick: 0,
                hit_count: 0,
            },
        );
        let ghost root_path = seq![Seq::<TokenId>::empty()];
        let paths: Ghost<Seq<Seq<TokenId>>> = Ghost(root_path);
        let cache = RadixCache {
            nodes,
            capacity_tokens: None,
            resident_tokens: 0,
            clock: 1,
            paths,
        };
        proof {
            let e = cache@.entries;
            assert(e =~= seq![CacheEntry { prefix: Seq::empty(), handle: None, tick: 0 }]);
            assert(e.drop_last().len() == 0);
            assert(tokens_resident(e.drop_last()) == 0);
            assert(tokens_resident(e) == 0);
        }
        cache
    }

    pub fn with_capacity_tokens(capacity_tokens: usize) -> (cache: Self)
        ensures
            cache.wf(),
            cache@ == (CacheModel {
                entries: seq![CacheEntry { prefix: Seq::empty(), handle: None, tick: 0 }],
                capacity: Some(capacity_tokens),
                clock: 1,
            }),
    {
        let mut cache = RadixCache::new();
        cache.capacity_tokens = Some(capacity_tokens);
        cache
    }

    /// Looks up the longest cached prefix of `tokens`, and marks every prefix
    /// on the way as used now.
    #[verifier::spinoff_prover]
    #[verifier::rlimit(60)]
    pub fn lookup(&mut self, tokens: &[TokenId]) -> (found: CacheLookup)
        requires
            old(self).wf(),
        ensures
            final(self).wf(),
            found == longest_cached(old(self)@.entries, tokens@, tokens@.len()),
            final(self)@ == (CacheModel {
                entries: touched(
                    old(self)@.entries,
                    tokens@,
                    tick_after(old(self)@.clock),
                ),
                clock: tick_after(old(self)@.clock),
                ..old(self)@
            }),
    {
        broadcast use lemma_prefix_elements;

        let ghost before = self@.entries;
        let ghost paths = self.paths@;
        let ghost nodes0 = self.nodes@;
        self.clock = self.clock.saturating_add(1);
        let access_tick: u64 = self.clock;
        let mut node_id: usize = 0;
        let mut cursor: usize = 0;
        let mut matched_tokens: usize = 0;
        let mut best: Option<KvCacheHandle> = self.nodes[0].handle;
        self.nodes[0].last_access_tick = access_tick;
        self.nodes[0].hit_count = self.nodes[0].hit_count.saturating_add(1);
        proof {
            assert(tokens@.take(0) =~= before[0].prefix);
            lemma_entry_of(before, 0);
            assert forall|i: int| 0 < i < nodes0.len() implies paths[i].len() > 0 by {
                if paths[i].len() == 0 {
                    assert(paths[i] =~= paths[0]);
                }
            }
        }

        while cursor < tokens.len()
            invariant_except_break
                true,
            invariant
                linked(nodes0, paths),
                before == entries_of(nodes0, paths),
                self.paths@ == paths,
                self.clock == access_tick,
                self.capacity_tokens == old(self).capacity_tokens,
                self.resident_tokens == old(self).resident_tokens,
                same_shape(nodes0, self.nodes@),
                cursor <= tokens@.len(),
                node_id < nodes0.len(),
                paths[node_id as int] == tokens@.take(cursor as int),
                forall|i: int|
                    0 <= i < nodes0.len() ==> (#[trigger] self.nodes@[i]).handle
                        == nodes0[i].handle,
                forall|i: int|
                    0 <= i < nodes0.len() ==> (#[trigger] self.nodes@[i]).last_access_tick == (if
                    paths[i].is_prefix_of(tokens@) && paths[i].len() <= cursor {
                        access_tick
                    } else {
                        nodes0[i].last_access_tick
                    }),
                (CacheLookup { matched_tokens, handle: best }) == longest_cached(
                    before,
                    tokens@,
                    cursor as nat,
                ),
            ensures
                forall|i: int|
                    0 <= i < nodes0.len() && (#[trigger] paths[i]).is_prefix_of(tokens@)
                        ==> paths[i].len() <= cursor,
            decreases tokens@.len() - cursor,
        {
            let next: Option<usize> = match self.nodes[node_id].children.get(&tokens[cursor]) {
                Some(c) => Some(*c),
                None => None,
            };
            let child_id: usize = match next {
                Some(c) => c,
                None => {
                    proof {
                        assert(nodes0[node_id as int].children@
                            == self.nodes@[node_id as int].children@);
                        assert forall|i: int|
                            0 <= i < nodes0.len() && (#[trigger] paths[i]).is_prefix_of(
                                tokens@,
                            ) implies paths[i].len() <= cursor by {
                            if paths[i].len() > cursor {
                                lemma_nothing_between(nodes0, paths, tokens@, node_id as int, i);
                            }
                        }
                    }
                    break ;
                },
            };
            proof {
                assert(nodes0[node_id as int].children@ == self.nodes@[node_id as int].children@);
                assert(nodes0[node_id as int].children@.contains_key(tokens@[cursor as int]));
                assert(below(paths[node_id as int], paths[child_id as int]));
                assert(nodes0[child_id as int].edge@ == self.nodes@[child_id as int].edge@);
            }
            let matched: usize = common_prefix_len(tokens, cursor, &self.nodes[child_id].edge);
            if matched < self.nodes[child_id].edge.len() {
                proof {
                    assert forall|i: int|
                        0 <= i < nodes0.len() && (#[trigger] paths[i]).is_prefix_of(
                            tokens@,
                        ) implies paths[i].len() <= cursor by {
                        if paths[i].len() > cursor {
                            lemma_nothing_between(nodes0, paths, tokens@, node_id as int, i);
                            let p = paths[child_id as int];
                            assert(p.is_prefix_of(tokens@));
                            assert(p[cursor + matched] == tokens@[cursor + matched]);
                            assert(nodes0[child_id as int].edge@[matched as int] == p[cursor
                                + matched]);
                        }
                    }
                }
                break ;
            }
            let ghost from = cursor;
            let ghost parent = node_id as int;
            cursor = cursor + matched;
            node_id = child_id;
            proof {
                let p = paths[node_id as int];
                assert(p.len() == cursor);
                assert forall|k: int| 0 <= k < cursor implies p[k] == tokens@[k] by {
                    if k < from {
                        assert(p[k] == paths[parent][k]);
                        assert(tokens@.take(from as int)[k] == tokens@[k]);
                    } else {
                        assert(nodes0[node_id as int].edge@[k - from] == p[k]);
                        assert(tokens@[from + (k - from)] == nodes0[node_id as int].edge@[k
                            - from]);
                    }
                }
                assert(p =~= tokens@.take(cursor as int));
                assert forall|k: int| from < k < cursor implies handle_on(
                    before,
                    #[trigger] tokens@.take(k),
                ) is None by {
                    if has_entry(before, tokens@.take(k)) {
                        let j = entry_of(before, tokens@.take(k));
                        assert(before[j].prefix == tokens@.take(k));
                        assert(paths[j] == tokens@.take(k));
                        lemma_nothing_between(nodes0, paths, tokens@, parent, j);
                    }
                }
                lemma_entry_of(before, node_id as int);
                assert(before[node_id as int].prefix == tokens@.take(cursor as int));
                if nodes0[node_id as int].handle is None {
                    lemma_longest_cached_skips(before, tokens@, from as nat, cursor as nat);
                }
                assert forall|i: int|
                    0 <= i < nodes0.len() && i != node_id && (#[trigger] paths[i]).is_prefix_of(
                        tokens@,
                    ) implies (paths[i].len() <= cursor <==> paths[i].len() <= from) by {
                    if from < paths[i].len() <= cursor {
                        lemma_nothing_between(nodes0, paths, tokens@, parent, i);
                        assert(paths[i].len() == cursor);
                        assert(paths[i] =~= paths[node_id as int]);
                    }
                }
            }
            self.nodes[node_id].last_access_tick = access_tick;
            self.nodes[node_id].hit_count = self.nodes[node_id].hit_count.saturating_add(1);

            if self.nodes[node_id].handle.is_some() {
                best = self.nodes[node_id].handle;
                matched_tokens = cursor;
            }
        }
        proof {
            lemma_same_shape_links(nodes0, self.nodes@, paths);
            let after = entries_of(self.nodes@, paths);
            assert(after =~= touched(before, tokens@, access_tick));
            lemma_same_handles(before, after);
            assert forall|k: int| cursor < k <= tokens@.len() implies handle_on(
                before,
                #[trigger] tokens@.take(k),
            ) is None by {
                if has_entry(before, tokens@.take(k)) {
                    let j = entry_of(before, tokens@.take(k));
                    assert(before[j].prefix == tokens@.take(k));
                    assert(paths[j].is_prefix_of(tokens@));
                }
            }
            lemma_longest_cached_skips(before, tokens@, cursor as nat, tokens@.len());
        }
        CacheLookup { matched_tokens, handle: best }
    }

    pub fn len(&self) -> (n: usize)
        requires
            self.wf(),
        ensures
            n == handles_held(self@.entries),
    {
        let ghost entries = self@.entries;
        let mut n: usize = 0;
        let mut i: usize = 0;
        while i < self.nodes.len()
            invariant
                entries == entries_of(self.nodes@, self.paths@),
                i <= self.nodes@.len(),
                n <= i,
                n == handles_held(entries.take(i as int)),
            decreases self.nodes@.len() - i,
        {
            assert(entries.take(i as int + 1).drop_last() =~= entries.take(i as int));
            if self.nodes[i].handle.is_some() {
                n = n + 1;
            }
            i = i + 1;
        }
        assert(entries.take(i as int) =~= entries);
        n
    }

    pub fn is_empty(&self) -> (empty: bool)
        requires
            self.wf(),
        ensures
            empty == (handles_held(self@.entries) == 0),
    {
        self.len() == 0
    }

    pub fn capacity_tokens(&self) -> (capacity: Option<usize>)
        ensures
            capacity == self@.capacity,
    {
        self.capacity_tokens
    }

    pub fn resident_tokens(&self) -> (n: usize)
        requires
            self.wf(),
        ensures
            n == tokens_resident(self@.entries),
    {
        self.resident_tokens
    }

    /// The node with the coldest handle.
    fn coldest_node(&self) -> (found: Option<usize>)
        requires
            self.wf(),
        ensures
            match found {
                Some(i) => is_coldest(self@.entries, i as int),
                None => handles_held(self@.entries) == 0,
            },
    {
        let ghost entries = self@.entries;
        let mut found: Option<usize> = None;
        let mut i: usize = 0;
        while i < self.nodes.len()
            invariant
                entries == entries_of(self.nodes@, self.paths@),
                i <= self.nodes@.len(),
                match found {
                    Some(c) => {
                        &&& c < i
                        &&& entries[c as int].handle is Some
                        &&& forall|j: int|
                            0 <= j < i && (#[trigger] entries[j]).handle is Some
                                ==> entries[c as int].tick < entries[j].tick || (
                            entries[c as int].tick == entries[j].tick && c <= j)
                    },
                    None => handles_held(entries.take(i as int)) == 0,
                },
            decreases self.nodes@.len() - i,
        {
            proof {
                assert(entries.take(i as int + 1).drop_last() =~= entries.take(i as int));
                if found is None {
                    lemma_no_handle(entries.take(i as int));
                    assert forall|j: int| 0 <= j < i implies (#[trigger] entries[j]).handle is None by {
                        assert(entries.take(i as int)[j] == entries[j]);
                    }
                }
            }
            if self.nodes[i].handle.is_some() {
                found = match found {
                    Some(c) => if self.nodes[i].last_access_tick < self.nodes[c].last_access_tick {
                        Some(i)
                    } else {
                        Some(c)
                    },
                    None => Some(i),
                };
            }
            i = i + 1;
        }
        assert(entries.take(i as int) =~= entries);
        found
    }

    /// Drops the handles used longest ago until `tokens_to_evict` tokens are
    /// free or no handle is left. Handles used at the same time go in the order
    /// in which their prefixes came into being.
    pub fn evict_coldest(&mut self, tokens_to_evict: usize) -> (eviction: CacheEviction)
        requires
            old(self).wf(),
        ensures
            final(self).wf(),
            final(self)@ == (CacheModel {
                entries: evicted(old(self)@.entries, tokens_to_evict as nat).0,
                ..old(self)@
            }),
            eviction.evicted@ == evicted(old(self)@.entries, tokens_to_evict as nat).1,
            dropped_in_order(
                old(self)@.entries,
                final(self)@.entries,
                eviction.evicted@,
                evicted_places(old(self)@.entries, tokens_to_evict as nat),
            ),
            eviction.evicted@.len() > 0 ==> tokens_covered(eviction.evicted@.drop_last())
                < tokens_to_evict,
            tokens_covered(eviction.evicted@) >= tokens_to_evict || handles_held(
                final(self)@.entries,
            ) == 0,
    {
        let ghost before = self@.entries;
        let ghost paths = self.paths@;
        let mut gone: Vec<KvCacheHandle> = Vec::new();
        let mut freed: usize = 0;
        let mut exhausted: bool = false;
        while freed < tokens_to_evict && !exhausted
            invariant
                self.wf(),
                self.paths@ == paths,
                self.clock == old(self).clock,
                self.capacity_tokens == old(self).capacity_tokens,
                exhausted ==> handles_held(self@.entries) == 0,
                freed + tokens_resident(self@.entries) == tokens_resident(before),
                tokens_resident(before) <= usize::MAX,
                evicted(before, tokens_to_evict as nat).0 == evicted(
                    self@.entries,
                    if freed >= tokens_to_evict {
                        0
                    } else {
                        (tokens_to_evict - freed) as nat
                    },
                ).0,
                evicted(before, tokens_to_evict as nat).1 =~= gone@ + evicted(
                    self@.entries,
                    if freed >= tokens_to_evict {
                        0
                    } else {
                        (tokens_to_evict - freed) as nat
                    },
                ).1,
            decreases handles_held(self@.entries), (if exhausted { 0int } else { 1int }),
        {
            match self.coldest_node() {
                None => {
                    exhausted = true;
                },
                Some(i) => {
                    let ghost cur = self@.entries;
                    proof {
                        lemma_coldest_unique(cur, i as int);
                        lemma_drop_counts(cur, i as int);
                        if handles_held(cur) == 0 {
                            lemma_no_handle(cur);
                            assert(cur[i as int].handle is None);
                        }
                    }
                    let handle: KvCacheHandle = self.nodes[i].handle.unwrap();
                    let ghost nodes0 = self.nodes@;
                    self.nodes[i].handle = None;
                    self.resident_tokens = self.resident_tokens.saturating_sub(handle.token_len);
                    proof {
                        assert(same_shape(nodes0, self.nodes@));
                        lemma_same_shape_links(nodes0, self.nodes@, paths);
                        assert(entries_of(self.nodes@, paths) =~= dropped(cur, i as int));
                    }
                    freed = freed + handle.token_len;
                    gone.push(handle);
                },
            }
        }
        proof {
            assert(gone@ + Seq::<KvCacheHandle>::empty() =~= gone@);
            eviction_drops_the_shortest_part(before, tokens_to_evict as nat);
        }
        CacheEviction { evicted: gone }
    }

    fn evict_to_capacity(&mut self)
        requires
            old(self).wf(),
        ensures
            final(self).wf(),
            final(self)@ == (CacheModel {
                entries: trimmed(old(self)@.entries, old(self)@.capacity),
                ..old(self)@
            }),
    {
        let capacity: usize = match self.capacity_tokens {
            Some(c) => c,
            None => {
                return ;
            },
        };
        if self.resident_tokens <= capacity {
            return ;
        }
        let overflow: usize = self.resident_tokens - capacity;
        let _ = self.evict_coldest(overflow);
    }

    /// Sets the limit on resident tokens and evicts down to it.
    pub fn set_capacity_tokens(&mut self, capacity_tokens: Option<usize>)
        requires
            old(self).wf(),
        ensures
            final(self).wf(),
            final(self)@ == (CacheModel {
                entries: trimmed(old(self)@.entries, capacity_tokens),
                capacity: capacity_tokens,
                ..old(self)@
            }),
    {
        self.capacity_tokens = capacity_tokens;
        self.evict_to_capacity();
    }

    /// Hangs a new leaf for `tokens` under `parent`, whose prefix is the first
    /// `at` tokens and which has no child that starts with the next one.
    #[verifier::spinoff_prover]
    #[verifier::rlimit(60)]
    fn attach_leaf(&mut self, parent: usize, tokens: &[TokenId], at: usize) -> (leaf: usize)
        requires
            linked(old(self).nodes@, old(self).paths@),
            parent < old(self).nodes@.len(),
            at < tokens@.len(),
            old(self).paths@[parent as int] == tokens@.take(at as int),
            !old(self).nodes@[parent as int].children@.contains_key(tokens@[at as int]),
        ensures
            linked(final(self).nodes@, final(self).paths@),
            leaf == old(self).nodes@.len(),
            final(self).paths@ == old(self).paths@.push(tokens@),
            final(self)@.entries == old(self)@.entries.push(
                CacheEntry { prefix: tokens@, handle: None, tick: old(self)@.clock },
            ),
            final(self).clock == old(self).clock,
            final(self).capacity_tokens == old(self).capacity_tokens,
            final(self).resident_tokens == old(self).resident_tokens,
    {
        broadcast use lemma_prefix_elements;

        let ghost nodes0 = self.nodes@;
        let ghost paths0 = self.paths@;
        let leaf: usize = self.nodes.len();
        let mut edge: Vec<TokenId> = Vec::new();
        let mut k: usize = at;
        while k < tokens.len()
            invariant
                at <= k <= tokens@.len(),
                edge@ == tokens@.subrange(at as int, k as int),
            decreases tokens@.len() - k,
        {
            edge.push(tokens[k]);
            k = k + 1;
            assert(edge@ =~= tokens@.subrange(at as int, k as int));
        }
        assert(edge@ =~= tokens@.skip(at as int));
        self.nodes.push(
            Node {
                edge,
                children: BTreeMap::new(),
                handle: None,
                last_access_tick: self.clock,
                hit_count: 0,
            },
        );
        self.nodes[parent].children.insert(tokens[at], leaf);
        proof {
            let ghost longer = paths0.push(tokens@);
            self.paths@ = longer;
        }
        proof {
            let nodes = self.nodes@;
            let paths = self.paths@;
            let t0 = tokens@[at as int];
            assert(forall|i: int| 0 <= i < paths0.len() ==> paths[i] == paths0[i]);
            assert(forall|i: int| 0 <= i < nodes0.len() && i != parent ==> nodes[i] == nodes0[i]);
            // No prefix between `parent` and the new leaf, and none equal to it.
            assert forall|i: int| 0 <= i < paths0.len() && paths0[i].is_prefix_of(tokens@) implies
                paths0[i].len() <= at by {
                if paths0[i].len() > at {
                    lemma_nothing_between(nodes0, paths0, tokens@, parent as int, i);
                }
            }
            assert forall|i: int, j: int|
                0 <= i < paths.len() && 0 <= j < paths.len() && #[trigger] paths[i]
                    == #[trigger] paths[j] implies i == j by {
                if i < paths0.len() && j < paths0.len() {
                    assert(paths0[i] == paths0[j]);
                } else if i < paths0.len() {
                    assert(paths0[i].is_prefix_of(tokens@));
                } else if j < paths0.len() {
                    assert(paths0[j].is_prefix_of(tokens@));
                }
            }
            assert forall|i: int, t: TokenId|
                0 <= i < nodes.len() && #[trigger] nodes[i].children@.contains_key(t) implies {
                let c = nodes[i].children@[t] as int;
                &&& 0 <= c < nodes.len()
                &&& below(paths[i], paths[c])
                &&& paths[c][paths[i].len() as int] == t
                &&& nodes[c].edge@ == paths[c].skip(paths[i].len() as int)
            } by {
                if i == parent && t == t0 {
                } else if i < nodes0.len() {
                    assert(nodes0[i].children@.contains_key(t));
                    let c = nodes0[i].children@[t] as int;
                    assert(below(paths0[i], paths0[c]));
                }
            }
            assert forall|i: int, j: int|
                0 <= i < nodes.len() && 0 <= j < nodes.len() && #[trigger] below(
                    paths[i],
                    paths[j],
                ) implies {
                let t = paths[j][paths[i].len() as int];
                &&& nodes[i].children@.contains_key(t)
                &&& paths[nodes[i].children@[t] as int].is_prefix_of(paths[j])
            } by {
                let t = paths[j][paths[i].len() as int];
                if i == leaf {
                    // Nothing lies below the new leaf.
                    assert(below(paths0[parent as int], paths0[j]));
                    assert(paths0[j][at as int] == t0);
                    assert(nodes0[parent as int].children@.contains_key(t0));
                } else if j == leaf {
                    assert(paths0[i].is_prefix_of(tokens@));
                    if paths0[i].len() == at {
                        assert(paths0[i] =~= paths0[parent as int]);
                    } else {
                        assert(below(paths0[i], paths0[parent as int]));
                        assert(t == paths0[parent as int][paths0[i].len() as int]);
                        let c = nodes0[i].children@[t] as int;
                        assert(nodes0[i].children@.contains_key(t));
                    }
                } else {
                    assert(below(paths0[i], paths0[j]));
                    assert(nodes0[i].children@.contains_key(t));
                    let c = nodes0[i].children@[t] as int;
                    assert(0 <= c < nodes0.len());
                }
            }
            assert forall|i: int| 0 <= i < nodes.len() && (#[trigger] nodes[i]).handle is Some implies
                nodes[i].handle->0.token_len == paths[i].len() by {
                assert(nodes0[i].handle is Some);
            }
            assert(paths[0] == paths0[0]);
            assert(self@.entries =~= old(self)@.entries.push(
                CacheEntry { prefix: tokens@, handle: None, tick: old(self)@.clock },
            ));
        }
        leaf
    }

    /// Puts a node into the middle of the edge that leads from `parent` to
    /// `child`, after the first `split_at` tokens of that edge.
    #[verifier::spinoff_prover]
    #[verifier::rlimit(60)]
    fn split_child(&mut self, parent: usize, child: usize, split_at: usize) -> (split: usize)
        requires
            linked(old(self).nodes@, old(self).paths@),
            parent < old(self).nodes@.len(),
            child < old(self).nodes@.len(),
            0 < split_at < old(self).nodes@[child as int].edge@.len(),
            old(self).nodes@[parent as int].children@.contains_key(
                old(self).nodes@[child as int].edge@[0],
            ),
            old(self).nodes@[parent as int].children@[old(self).nodes@[child as int].edge@[0]]
                == child,
        ensures
            linked(final(self).nodes@, final(self).paths@),
            split == old(self).nodes@.len(),
            ({
                let q = old(self).paths@[child as int].take(
                    old(self).paths@[parent as int].len() + split_at,
                );
                &&& final(self).paths@ == old(self).paths@.push(q)
                &&& final(self)@.entries == old(self)@.entries.push(
                    CacheEntry { prefix: q, handle: None, tick: old(self)@.clock },
                )
            }),
            final(self).nodes@[split as int].children@ == Map::<TokenId, usize>::empty().insert(
                old(self).nodes@[child as int].edge@[split_at as int],
                child,
            ),
            final(self).clock == old(self).clock,
            final(self).capacity_tokens == old(self).capacity_tokens,
            final(self).resident_tokens == old(self).resident_tokens,
    {
        broadcast use lemma_prefix_elements;

        let ghost nodes0 = self.nodes@;
        let ghost paths0 = self.paths@;
        let old_first: TokenId = self.nodes[child].edge[0];
        let new_first: TokenId = self.nodes[child].edge[split_at];
        let mut piece: Vec<TokenId> = self.nodes[child].edge.split_off(split_at);
        std::mem::swap(&mut self.nodes[child].edge, &mut piece);
        let mut children: BTreeMap<TokenId, usize> = BTreeMap::new();
        children.insert(new_first, child);
        let split: usize = self.nodes.len();
        let hit_count: usize = self.nodes[child].hit_count;
        self.nodes.push(
            Node { edge: piece, children, handle: None, last_access_tick: self.clock, hit_count },
        );
        self.nodes[parent].children.insert(old_first, split);
        proof {
            let ghost longer = paths0.push(
                paths0[child as int].take(paths0[parent as int].len() + split_at),
            );
            self.paths@ = longer;
        }
        proof {
            let nodes = self.nodes@;
            let paths = self.paths@;
            let p = paths0[parent as int];
            let full = paths0[child as int];
            let q = full.take(p.len() + split_at);
            let e = nodes0[child as int].edge@;
            assert(below(p, full));
            assert(e == full.skip(p.len() as int));
            assert(full[p.len() as int] == old_first);
            assert(full[p.len() + split_at] == new_first);
            assert(parent != child);
            assert(forall|i: int| 0 <= i < paths0.len() ==> paths[i] == paths0[i]);
            assert(nodes[split as int].edge@ =~= q.skip(p.len() as int));
            assert(nodes[child as int].edge@ =~= full.skip(q.len() as int));
            assert(p.is_prefix_of(q) && q.is_prefix_of(full));
            // Whatever lies on the way of `full` beyond `parent` reaches down to `child`.
            assert forall|j: int| 0 <= j < paths0.len() && #[trigger] below(p, paths0[j])
                && paths0[j][p.len() as int] == old_first implies full.is_prefix_of(paths0[j]) by {
            }
            assert forall|j: int| 0 <= j < paths0.len() implies #[trigger] paths0[j] != q by {
                if paths0[j] == q {
                    assert(below(p, paths0[j]));
                    assert(paths0[j][p.len() as int] == old_first);
                }
            }
            assert forall|i: int, j: int|
                0 <= i < paths.len() && 0 <= j < paths.len() && #[trigger] paths[i]
                    == #[trigger] paths[j] implies i == j by {
                if i < paths0.len() && j < paths0.len() {
                    assert(paths0[i] == paths0[j]);
                } else if i < paths0.len() {
                    assert(paths0[i] != q);
                } else if j < paths0.len() {
                    assert(paths0[j] != q);
                }
            }
            assert forall|i: int, t: TokenId|
                0 <= i < nodes.len() && #[trigger] nodes[i].children@.contains_key(t) implies {
                let c = nodes[i].children@[t] as int;
                &&& 0 <= c < nodes.len()
                &&& below(paths[i], paths[c])
                &&& paths[c][paths[i].len() as int] == t
                &&& nodes[c].edge@ == paths[c].skip(paths[i].len() as int)
            } by {
                if i == split {
                    assert(t == new_first);
                } else if i == parent && t == old_first {
                } else {
                    assert(nodes0[i].children@.contains_key(t));
                    let c = nodes0[i].children@[t] as int;
                    assert(below(paths0[i], paths0[c]));
                    if c == child {
                        // A second link to `child` would come from a second node.
                        if paths0[i].len() < p.len() {
                            assert(below(paths0[i], p));
                            assert(p[paths0[i].len() as int] == t);
                            assert(full.is_prefix_of(p));
                        } else if paths0[i].len() > p.len() {
                            assert(below(p, paths0[i]));
                            assert(paths0[i][p.len() as int] == old_first);
                            assert(full.is_prefix_of(paths0[i]));
                        } else {
                            assert(paths0[i] =~= p);
                        }
                        assert(false);
                    }
                }
            }
            assert forall|i: int, j: int|
                0 <= i < nodes.len() && 0 <= j < nodes.len() && #[trigger] below(
                    paths[i],
                    paths[j],
                ) implies {
                let t = paths[j][paths[i].len() as int];
                &&& nodes[i].children@.contains_key(t)
                &&& paths[nodes[i].children@[t] as int].is_prefix_of(paths[j])
            } by {
                let t = paths[j][paths[i].len() as int];
                if i == split {
                    assert(below(p, paths0[j]));
                    assert(paths0[j][p.len() as int] == old_first);
                    assert(full.is_prefix_of(paths0[j]));
                    assert(t == new_first);
                } else if j == split {
                    if paths0[i].len() < p.len() {
                        assert(below(paths0[i], p));
                        assert(p[paths0[i].len() as int] == t);
                        assert(nodes0[i].children@.contains_key(t));
                    } else if paths0[i].len() > p.len() {
                        assert(below(p, paths0[i]));
                        assert(paths0[i][p.len() as int] == old_first);
                        assert(full.is_prefix_of(paths0[i]));
                        assert(false);
                    } else {
                        assert(paths0[i] =~= p);
                    }
                } else {
                    assert(below(paths0[i], paths0[j]));
                    assert(nodes0[i].children@.contains_key(t));
                    let c = nodes0[i].children@[t] as int;
                    assert(0 <= c < nodes0.len());
                    if i == parent && t == old_first {
                        assert(full.is_prefix_of(paths0[j]));
                    }
                }
            }
            assert forall|i: int| 0 <= i < nodes.len() && (#[trigger] nodes[i]).handle is Some implies
                nodes[i].handle->0.token_len == paths[i].len() by {
                assert(nodes0[i].handle is Some);
            }
            assert(paths[0] == paths0[0]);
            assert(self@.entries =~= old(self)@.entries.push(
                CacheEntry { prefix: q, handle: None, tick: old(self)@.clock },
            ));
        }
        split
    }

    /// Finds the node of `tokens`, making room for it where there is none.
    #[verifier::spinoff_prover]
    #[verifier::rlimit(60)]
    fn insert_from(&mut self, tokens: &[TokenId]) -> (leaf: usize)
        requires
            linked(old(self).nodes@, old(self).paths@),
        ensures
            linked(final(self).nodes@, final(self).paths@),
            final(self)@.entries == grown(old(self)@.entries, tokens@, old(self)@.clock),
            leaf < final(self).nodes@.len(),
            final(self).paths@[leaf as int] == tokens@,
            final(self).clock == old(self).clock,
            final(self).capacity_tokens == old(self).capacity_tokens,
            final(self).resident_tokens == old(self).resident_tokens,
    {
        broadcast use lemma_prefix_elements;

        let ghost before = self@.entries;
        let ghost nodes = self.nodes@;
        let ghost paths = self.paths@;
        let mut node_id: usize = 0;
        let mut cursor: usize = 0;
        assert(tokens@.take(0) =~= paths[0]);
        while cursor < tokens.len()
            invariant
                linked(nodes, paths),
                self.nodes@ == nodes,
                self.paths@ == paths,
                *self == *old(self),
                before == self@.entries,
                cursor <= tokens@.len(),
                node_id < nodes.len(),
                paths[node_id as int] == tokens@.take(cursor as int),
            decreases tokens@.len() - cursor,
        {
            let next: Option<usize> = match self.nodes[node_id].children.get(&tokens[cursor]) {
                Some(c) => Some(*c),
                None => None,
            };
            let child_id: usize = match next {
                Some(c) => c,
                None => {
                    proof {
                        assert(before[node_id as int].prefix == tokens@.take(cursor as int));
                        assert(tokens@.take(cursor as int).is_prefix_of(
                            before[node_id as int].prefix,
                        ));
                        if runs_along(before, tokens@.take(cursor as int + 1)) {
                            let j = choose|j: int|
                                0 <= j < before.len() && tokens@.take(
                                    cursor as int + 1,
                                ).is_prefix_of(#[trigger] before[j].prefix);
                            let w = tokens@.take(cursor as int + 1);
                            assert(w[cursor as int] == paths[j][cursor as int]);
                            assert forall|k: int| 0 <= k < cursor implies paths[node_id as int][k]
                                == paths[j][k] by {
                                assert(w[k] == paths[j][k]);
                            }
                            assert(below(paths[node_id as int], paths[j]));
                        }
                        lemma_shared_len(before, tokens@, cursor as nat, tokens@.len());
                    }
                    return self.attach_leaf(node_id, tokens, cursor);
                },
            };
            assert(nodes[node_id as int].children@.contains_key(tokens@[cursor as int]));
            assert(below(paths[node_id as int], paths[child_id as int]));
            assert(nodes[child_id as int].edge@ == paths[child_id as int].skip(cursor as int));
            let common: usize = common_prefix_len(tokens, cursor, &self.nodes[child_id].edge);
            let child_edge_len: usize = self.nodes[child_id].edge.len();
            let ghost full = paths[child_id as int];
            assert(nodes[child_id as int].edge@[0] == full[cursor as int]);
            assert(common > 0);
            let ghost met = (cursor + common) as int;
            proof {
                assert forall|k: int| 0 <= k < met implies full[k] == tokens@[k] by {
                    if k < cursor {
                        assert(full[k] == paths[node_id as int][k]);
                        assert(tokens@.take(cursor as int)[k] == tokens@[k]);
                    } else {
                        assert(nodes[child_id as int].edge@[k - cursor] == full[k]);
                        assert(tokens@[cursor + (k - cursor)] == nodes[child_id as int].edge@[k
                            - cursor]);
                    }
                }
            }
            if common == child_edge_len {
                assert(full =~= tokens@.take(met));
                node_id = child_id;
                cursor = cursor + common;
            } else {
                proof {
                    let shared = tokens@.take(met);
                    assert(full.take(met) =~= shared);
                    assert(before[child_id as int].prefix == full);
                    assert(shared.is_prefix_of(before[child_id as int].prefix));
                    assert(met < tokens@.len() ==> full[met] != tokens@[met]) by {
                        assert(nodes[child_id as int].edge@[common as int] == full[met]);
                    }
                    if met < tokens@.len() && runs_along(before, tokens@.take(met + 1)) {
                        let j = choose|j: int|
                            0 <= j < before.len() && tokens@.take(met + 1).is_prefix_of(
                                #[trigger] before[j].prefix,
                            );
                        let w = tokens@.take(met + 1);
                        assert(w[met] == paths[j][met]);
                        assert(w[cursor as int] == paths[j][cursor as int]);
                        assert forall|k: int| 0 <= k < cursor implies paths[node_id as int][k]
                            == paths[j][k] by {
                            assert(w[k] == paths[j][k]);
                        }
                        assert(below(paths[node_id as int], paths[j]));
                        assert(full.is_prefix_of(paths[j]));
                        assert(full[met] == paths[j][met]);
                    }
                    lemma_shared_len(before, tokens@, met as nat, tokens@.len());
                    if has_entry(before, shared) {
                        let j = entry_of(before, shared);
                        assert(before[j].prefix == shared);
                        assert(paths[j] == shared);
                        assert(below(paths[node_id as int], paths[j]));
                        assert(full.is_prefix_of(paths[j]));
                    }
                }
                let split_id: usize = self.split_child(node_id, child_id, common);
                cursor = cursor + common;
                if cursor == tokens.len() {
                    assert(tokens@.take(met) =~= tokens@);
                    return split_id;
                }
                return self.attach_leaf(split_id, tokens, cursor);
            }
        }
        proof {
            assert(tokens@.take(cursor as int) =~= tokens@);
            assert(before[node_id as int].prefix == tokens@);
            assert(tokens@.is_prefix_of(before[node_id as int].prefix));
            lemma_shared_len(before, tokens@, tokens@.len(), tokens@.len());
        }
        node_id
    }

    /// Caches `handle` for `tokens`, then evicts down to the capacity.
    ///
    /// The handle must cover exactly the inserted tokens.
    #[verifier::spinoff_prover]
    #[verifier::rlimit(60)]
    pub fn insert(&mut self, tokens: &[TokenId], handle: KvCacheHandle) -> (done: CacheInsert)
        requires
            old(self).wf(),
            tokens@.len() == handle.token_len,
            tokens_resident(old(self)@.entries) + handle.token_len <= usize::MAX,
        ensures
            final(self).wf(),
            done == (CacheInsert {
                inserted_tokens: handle.token_len,
                replaced: handle_on(old(self)@.entries, tokens@),
                handle,
            }),
            final(self)@ == (CacheModel {
                entries: trimmed(
                    stored(
                        old(self)@.entries,
                        tokens@,
                        handle,
                        tick_after(old(self)@.clock),
                    ),
                    old(self)@.capacity,
                ),
                clock: tick_after(old(self)@.clock),
                ..old(self)@
            }),
            old(self)@.clock < u64::MAX && (old(self)@.capacity is Some ==> handle.token_len
                <= old(self)@.capacity->0) ==> handle_on(final(self)@.entries, tokens@) == Some(
                handle,
            ),
    {
        proof {
            wf_is_sound(*self);
            if self@.clock < u64::MAX && (self@.capacity is Some ==> handle.token_len
                <= self@.capacity->0) {
                inserted_handle_survives_trimming(
                    self@.entries,
                    tokens@,
                    handle,
                    self@.clock,
                    self@.capacity,
                );
            }
        }
        let ghost entries0 = self@.entries;
        let ghost nodes0 = self.nodes@;
        let ghost paths0 = self.paths@;
        self.clock = self.clock.saturating_add(1);
        let tick: u64 = self.clock;
        self.nodes[0].last_access_tick = tick;
        self.nodes[0].hit_count = self.nodes[0].hit_count.saturating_add(1);
        let ghost entries1 = self@.entries;
        proof {
            assert(same_shape(nodes0, self.nodes@));
            lemma_same_shape_links(nodes0, self.nodes@, paths0);
            assert(entries1 =~= entries0.update(0, CacheEntry { tick, ..entries0[0] }));
            lemma_same_handles(entries0, entries1);
        }
        let leaf: usize = self.insert_from(tokens);
        let ghost room = self@.entries;
        let ghost nodes2 = self.nodes@;
        let replaced: Option<KvCacheHandle> = self.nodes[leaf].handle;
        self.nodes[leaf].handle = Some(handle);
        self.nodes[leaf].last_access_tick = tick;
        self.nodes[leaf].hit_count = self.nodes[leaf].hit_count.saturating_add(1);
        proof {
            lemma_entry_of(room, leaf as int);
            assert(same_shape(nodes2, self.nodes@));
            lemma_same_shape_links(nodes2, self.nodes@, self.paths@);
            assert(self@.entries =~= stored(entries0, tokens@, handle, tick));
            lemma_update_counts(
                room,
                leaf as int,
                CacheEntry { prefix: tokens@, handle: Some(handle), tick },
            );
            lemma_grown_counts(entries1, tokens@, tick);
            lemma_grown_keeps(entries1, tokens@, tick);
            lemma_touch_keeps_handles(entries0, entries1, tokens@);
            assert(replaced == room[leaf as int].handle);
            if replaced is Some {
                lemma_handle_within_total(room, leaf as int);
            }
        }

        match replaced {
            Some(prior) => {
                self.resident_tokens = self.resident_tokens.saturating_sub(prior.token_len);
            },
            None => {},
        }
        self.resident_tokens = self.resident_tokens + handle.token_len;
        self.evict_to_capacity();

        CacheInsert { inserted_tokens: tokens.len(), replaced, handle }
    }
}

proof fn lemma_grown_counts(entries: Seq<CacheEntry>, tokens: Seq<TokenId>, tick: u64)
    ensures
        handles_held(grown(entries, tokens, tick)) == handles_held(entries),
        tokens_resident(grown(entries, tokens, tick)) == tokens_resident(entries),
{
    let shared = tokens.take(shared_len(entries, tokens, tokens.len()) as int);
    let a = CacheEntry { prefix: shared, handle: None, tick };
    let b = CacheEntry { prefix: tokens, handle: None, tick };
    lemma_push_counts(entries, a);
    lemma_push_counts(entries.push(a), b);
    lemma_push_counts(entries, b);
}

/// Prefixes are pairwise different.
pub open spec fn distinct_prefixes(entries: Seq<CacheEntry>) -> bool {
    forall|a: int, b: int|
        0 <= a < entries.len() && 0 <= b < entries.len() && #[trigger] entries[a].prefix
            == #[trigger] entries[b].prefix ==> a == b
}

proof fn lemma_shared_bound(entries: Seq<CacheEntry>, tokens: Seq<TokenId>, upto: nat)
    requires
        upto <= tokens.len(),
    ensures
        shared_len(entries, tokens, upto) <= upto,
        shared_len(entries, tokens, upto) == 0 || runs_along(
            entries,
            tokens.take(shared_len(entries, tokens, upto) as int),
        ),
        shared_len(entries, tokens, upto) == upto || !runs_along(entries, tokens.take(upto as int)),
    decreases upto,
{
    if upto > 0 && !runs_along(entries, tokens.take(upto as int)) {
        lemma_shared_bound(entries, tokens, (upto - 1) as nat);
    }
}

/// Making room keeps every handle where it is and gives `tokens` an entry.
proof fn lemma_grown_keeps(entries: Seq<CacheEntry>, tokens: Seq<TokenId>, tick: u64)
    requires
        distinct_prefixes(entries),
        distinct_prefixes(grown(entries, tokens, tick)),
    ensures
        has_entry(grown(entries, tokens, tick), tokens),
        forall|p: Seq<TokenId>| #[trigger]
            handle_on(grown(entries, tokens, tick), p) == handle_on(entries, p),
{
    let g = grown(entries, tokens, tick);
    lemma_shared_bound(entries, tokens, tokens.len());
    let n = shared_len(entries, tokens, tokens.len());
    assert(tokens.take(tokens.len() as int) =~= tokens);
    if n == tokens.len() && has_entry(entries, tokens) {
        assert(g =~= entries);
    } else {
        assert(g.last().prefix == tokens);
        assert(g[g.len() - 1].prefix == tokens);
    }
    assert forall|p: Seq<TokenId>| #[trigger] handle_on(g, p) == handle_on(entries, p) by {
        if has_entry(entries, p) {
            let i = entry_of(entries, p);
            assert(entries[i].prefix == p);
            lemma_entry_of(entries, i);
            assert(g[i] == entries[i]);
            lemma_entry_of(g, i);
        } else if has_entry(g, p) {
            let j = entry_of(g, p);
            assert(g[j].prefix == p);
            if j < entries.len() {
                assert(g[j] == entries[j]);
                assert(entries[j].prefix == p);
            }
            assert(g[j].handle is None);
        }
    }
}

proof fn lemma_touch_keeps_handles(
    a: Seq<CacheEntry>,
    b: Seq<CacheEntry>,
    p: Seq<TokenId>,
)
    requires
        distinct_prefixes(a),
        a.len() == b.len(),
        forall|i: int|
            0 <= i < a.len() ==> (#[trigger] a[i]).handle == b[i].handle && a[i].prefix
                == b[i].prefix,
    ensures
        distinct_prefixes(b),
        handle_on(a, p) == handle_on(b, p),
{
    assert forall|i: int, j: int|
        0 <= i < b.len() && 0 <= j < b.len() && #[trigger] b[i].prefix
            == #[trigger] b[j].prefix implies i == j by {
        assert(a[i].prefix == b[i].prefix);
        assert(a[j].prefix == b[j].prefix);
    }
    if has_entry(a, p) {
        let i = entry_of(a, p);
        assert(a[i].prefix == p);
        lemma_entry_of(a, i);
        assert(b[i].prefix == p);
        lemma_entry_of(b, i);
    } else if has_entry(b, p) {
        let i = entry_of(b, p);
        assert(b[i].prefix == p);
        assert(a[i].prefix == p);
    }
}

// ---------------------------------------------------------------------------
// Laws
// ---------------------------------------------------------------------------

/// What every cache keeps: the empty prefix comes first, no prefix occurs
/// twice, and every handle covers exactly the tokens of its prefix.
pub open spec fn sound(entries: Seq<CacheEntry>) -> bool {
    &&& entries.len() >= 1
    &&& entries[0].prefix == Seq::<TokenId>::empty()
    &&& distinct_prefixes(entries)
    &&& forall|i: int|
        0 <= i < entries.len() && (#[trigger] entries[i]).handle is Some
            ==> entries[i].handle->0.token_len == entries[i].prefix.len()
}

/// A well formed cache is sound.
pub proof fn wf_is_sound(cache: RadixCache)
    requires
        cache.wf(),
    ensures
        sound(cache@.entries),
        timely(cache@.entries, cache@.clock),
        tokens_resident(cache@.entries) <= usize::MAX,
{
    let entries = cache@.entries;
    assert forall|a: int, b: int|
        0 <= a < entries.len() && 0 <= b < entries.len() && #[trigger] entries[a].prefix
            == #[trigger] entries[b].prefix implies a == b by {
        assert(cache.paths@[a] == cache.paths@[b]);
    }
    assert forall|i: int|
        0 <= i < entries.len() && (#[trigger] entries[i]).handle is Some implies entries[i].handle->0.token_len
        == entries[i].prefix.len() by {
        assert(cache.nodes@[i].handle is Some);
    }
}

proof fn lemma_grown_distinct(entries: Seq<CacheEntry>, tokens: Seq<TokenId>, tick: u64)
    requires
        distinct_prefixes(entries),
    ensures
        distinct_prefixes(grown(entries, tokens, tick)),
{
    broadcast use lemma_prefix_elements;

    let g = grown(entries, tokens, tick);
    lemma_shared_bound(entries, tokens, tokens.len());
    let n = shared_len(entries, tokens, tokens.len());
    let shared = tokens.take(n as int);
    assert(tokens.take(tokens.len() as int) =~= tokens);
    if n < tokens.len() && has_entry(entries, tokens) {
        let i = entry_of(entries, tokens);
        assert(entries[i].prefix == tokens);
        assert(tokens.is_prefix_of(entries[i].prefix));
    }
    assert forall|a: int, b: int|
        0 <= a < g.len() && 0 <= b < g.len() && #[trigger] g[a].prefix
            == #[trigger] g[b].prefix implies a == b by {
        if a < entries.len() {
            assert(entries[a].prefix == g[a].prefix);
        }
        if b < entries.len() {
            assert(entries[b].prefix == g[b].prefix);
        }
    }
}

/// What a read gives back of a write: after `handle` was stored for `tokens`,
/// it is the handle on `tokens`, and every other prefix has the handle it had.
pub proof fn stored_is_read_back(
    entries: Seq<CacheEntry>,
    tokens: Seq<TokenId>,
    handle: KvCacheHandle,
    tick: u64,
    p: Seq<TokenId>,
)
    requires
        sound(entries),
    ensures
        handle_on(stored(entries, tokens, handle, tick), p) == (if p == tokens {
            Some(handle)
        } else {
            handle_on(entries, p)
        }),
{
    let first = entries.update(0, CacheEntry { tick, ..entries[0] });
    lemma_touch_keeps_handles(entries, first, p);
    lemma_grown_distinct(first, tokens, tick);
    lemma_grown_keeps(first, tokens, tick);
    let room = grown(first, tokens, tick);
    let leaf = entry_of(room, tokens);
    assert(0 <= leaf < room.len() && room[leaf].prefix == tokens);
    let after = stored(entries, tokens, handle, tick);
    assert forall|a: int, b: int|
        0 <= a < after.len() && 0 <= b < after.len() && #[trigger] after[a].prefix
            == #[trigger] after[b].prefix implies a == b by {
        assert(room[a].prefix == after[a].prefix);
        assert(room[b].prefix == after[b].prefix);
    }
    if has_entry(room, p) {
        let i = entry_of(room, p);
        assert(room[i].prefix == p);
        assert(after[i].prefix == p);
        lemma_entry_of(room, i);
        lemma_entry_of(after, i);
    } else if has_entry(after, p) {
        let i = entry_of(after, p);
        assert(after[i].prefix == p);
        assert(room[i].prefix == p);
    }
    assert(handle_on(room, p) == handle_on(first, p));
}

/// Storing changes one entry only: `leaf`, the entry of `tokens`. Every other
/// entry keeps its prefix and handle, and new entries have no handle. The entry
/// and the empty prefix count as used now; what was cached before keeps the time
/// of its last use.
pub proof fn storing_changes_one_handle(
    entries: Seq<CacheEntry>,
    tokens: Seq<TokenId>,
    handle: KvCacheHandle,
    tick: u64,
) -> (leaf: int)
    requires
        sound(entries),
    ensures
        ({
            let after = stored(entries, tokens, handle, tick);
            &&& entries.len() <= after.len()
            &&& 0 <= leaf < after.len()
            &&& after[leaf].prefix == tokens
            &&& after[leaf].handle == Some(handle)
            &&& leaf < entries.len() ==> entries[leaf].prefix == tokens && handle_on(
                entries,
                tokens,
            ) == entries[leaf].handle
            &&& leaf >= entries.len() ==> handle_on(entries, tokens) is None
            &&& after[leaf].tick == tick
            &&& forall|i: int|
                0 <= i < entries.len() && i != leaf ==> (#[trigger] after[i]).prefix
                    == entries[i].prefix && after[i].handle == entries[i].handle && after[i].tick
                    == (if i == 0 {
                    tick
                } else {
                    entries[i].tick
                })
            &&& forall|i: int|
                entries.len() <= i < after.len() && i != leaf ==> (#[trigger] after[i]).handle is None
        }),
{
    let first = entries.update(0, CacheEntry { tick, ..entries[0] });
    lemma_touch_keeps_handles(entries, first, tokens);
    lemma_grown_distinct(first, tokens, tick);
    lemma_grown_keeps(first, tokens, tick);
    let room = grown(first, tokens, tick);
    let leaf = entry_of(room, tokens);
    assert(0 <= leaf < room.len() && room[leaf].prefix == tokens);
    lemma_entry_of(room, leaf);
    assert(handle_on(room, tokens) == handle_on(first, tokens));
    leaf
}

/// An insertion adds at most the tokens of its sequence to what is resident,
/// and keeps a cache sound.
pub proof fn insertion_bounds_residency(
    entries: Seq<CacheEntry>,
    tokens: Seq<TokenId>,
    handle: KvCacheHandle,
    tick: u64,
    capacity: Option<usize>,
)
    requires
        sound(entries),
    ensures
        tokens_resident(trimmed(stored(entries, tokens, handle, tick), capacity))
            <= tokens_resident(entries) + handle.token_len,
{
    let first = entries.update(0, CacheEntry { tick, ..entries[0] });
    assert forall|i: int| 0 <= i < entries.len() implies (#[trigger] entries[i]).handle
        == first[i].handle by {
    }
    lemma_same_handles(entries, first);
    lemma_touch_keeps_handles(entries, first, tokens);
    lemma_grown_distinct(first, tokens, tick);
    lemma_grown_keeps(first, tokens, tick);
    lemma_grown_counts(first, tokens, tick);
    let room = grown(first, tokens, tick);
    let leaf = entry_of(room, tokens);
    assert(0 <= leaf < room.len() && room[leaf].prefix == tokens);
    lemma_update_counts(
        room,
        leaf,
        CacheEntry { prefix: tokens, handle: Some(handle), tick },
    );
    let full = stored(entries, tokens, handle, tick);
    if capacity is Some {
        if tokens_resident(full) > capacity->0 {
            eviction_frees_enough(full, (tokens_resident(full) - capacity->0) as nat);
        }
    }
}

/// A lookup leaves every handle where it is.
pub proof fn lookup_keeps_handles(entries: Seq<CacheEntry>, tokens: Seq<TokenId>, tick: u64)
    requires
        sound(entries),
    ensures
        sound(touched(entries, tokens, tick)),
        handles_held(touched(entries, tokens, tick)) == handles_held(entries),
        tokens_resident(touched(entries, tokens, tick)) == tokens_resident(entries),
        forall|p: Seq<TokenId>| #[trigger]
            handle_on(touched(entries, tokens, tick), p) == handle_on(entries, p),
{
    let after = touched(entries, tokens, tick);
    assert forall|i: int| 0 <= i < entries.len() implies (#[trigger] entries[i]).handle
        == after[i].handle && entries[i].prefix == after[i].prefix by {
    }
    lemma_same_handles(entries, after);
    assert forall|p: Seq<TokenId>| #[trigger] handle_on(after, p) == handle_on(entries, p) by {
        lemma_touch_keeps_handles(entries, after, p);
    }
    lemma_touch_keeps_handles(entries, after, Seq::empty());
    assert(after[0].prefix == entries[0].prefix);
    assert forall|i: int|
        0 <= i < after.len() && (#[trigger] after[i]).handle is Some implies after[i].handle->0.token_len
        == after[i].prefix.len() by {
        assert(entries[i].handle is Some);
    }
}

/// A lookup finds the longest cached prefix: it reports a handle exactly if
/// some prefix of `tokens` has one, the reported handle is the one on the
/// matched prefix, and no longer prefix has a handle.
pub proof fn lookup_finds_the_longest_prefix(
    entries: Seq<CacheEntry>,
    tokens: Seq<TokenId>,
    upto: nat,
    k: nat,
)
    requires
        k <= upto <= tokens.len(),
        tokens.len() <= usize::MAX,
    ensures
        ({
            let found = longest_cached(entries, tokens, upto);
            &&& found.matched_tokens <= upto
            &&& found.handle is Some ==> found.handle == handle_on(
                entries,
                tokens.take(found.matched_tokens as int),
            )
            &&& found.handle is None ==> found.matched_tokens == 0
            &&& handle_on(entries, tokens.take(k as int)) is Some ==> found.handle is Some
                && found.matched_tokens >= k
        }),
    decreases upto,
{
    if handle_on(entries, tokens.take(upto as int)) is None && upto > 0 {
        if k < upto {
            lookup_finds_the_longest_prefix(entries, tokens, (upto - 1) as nat, k);
        } else {
            lookup_finds_the_longest_prefix(entries, tokens, (upto - 1) as nat, 0);
        }
    }
}

/// Caching a sequence and looking it up gives the handle back, whatever was
/// cached before, when no eviction intervenes.
pub proof fn insert_then_lookup(
    entries: Seq<CacheEntry>,
    tokens: Seq<TokenId>,
    handle: KvCacheHandle,
    tick: u64,
)
    requires
        sound(entries),
        tokens.len() == handle.token_len,
    ensures
        longest_cached(stored(entries, tokens, handle, tick), tokens, tokens.len()) == (
        CacheLookup { matched_tokens: handle.token_len, handle: Some(handle) }),
{
    assert(tokens.take(tokens.len() as int) =~= tokens);
    stored_is_read_back(entries, tokens, handle, tick, tokens);
}

/// Whether entry `i` goes before entry `j`: it was used longer ago, or as long ago
/// and is the older entry.
pub open spec fn precedes(entries: Seq<CacheEntry>, i: int, j: int) -> bool {
    entries[i].tick < entries[j].tick || (entries[i].tick == entries[j].tick && i < j)
}

proof fn lemma_last_stays(entries: Seq<CacheEntry>, last: int, need: nat)
    requires
        0 <= last < entries.len(),
        entries[last].handle is Some,
        forall|j: int|
            0 <= j < entries.len() && j != last && (#[trigger] entries[j]).handle is Some
                ==> precedes(entries, j, last),
        need + entries[last].handle->0.token_len <= tokens_resident(entries),
    ensures
        evicted(entries, need).0[last] == entries[last],
    decreases handles_held(entries),
{
    if need != 0 && handles_held(entries) != 0 {
        lemma_coldest_exists(entries);
        let c = coldest(entries);
        lemma_drop_counts(entries, c);
        if c == last {
            assert forall|j: int| 0 <= j < entries.len() implies (#[trigger] dropped(
                entries,
                last,
            )[j]).handle is None by {
                if j != last {
                    assert(entries[j].handle is Some ==> precedes(entries, j, last));
                }
            }
            lemma_nothing_resident(dropped(entries, last));
        } else {
            let h = entries[c].handle->0;
            let less: nat = if h.token_len >= need {
                0
            } else {
                (need - h.token_len) as nat
            };
            let fewer = dropped(entries, c);
            assert forall|j: int|
                0 <= j < fewer.len() && j != last && (
                #[trigger] fewer[j]).handle is Some implies precedes(fewer, j, last) by {
                assert(entries[j].handle is Some);
            }
            lemma_drop_counts(entries, last);
            lemma_handle_within_total(fewer, last);
            lemma_last_stays(fewer, last, less);
        }
    }
}

proof fn lemma_nothing_resident(entries: Seq<CacheEntry>)
    requires
        forall|i: int| 0 <= i < entries.len() ==> (#[trigger] entries[i]).handle is None,
    ensures
        tokens_resident(entries) == 0,
    decreases entries.len(),
{
    if entries.len() > 0 {
        assert forall|i: int| 0 <= i < entries.len() - 1 implies (
        #[trigger] entries.drop_last()[i]).handle is None by {
            assert(entries[i].handle is None);
        }
        lemma_nothing_resident(entries.drop_last());
        assert(entries[entries.len() - 1].handle is None);
    }
}

/// A handle that fits into the capacity survives its own insertion, whatever has
/// to go for it, and is what a lookup of its sequence finds next. The clock must
/// not stand still: at its last value, handles used before count as used now.
pub proof fn inserted_handle_survives_trimming(
    entries: Seq<CacheEntry>,
    tokens: Seq<TokenId>,
    handle: KvCacheHandle,
    clock: u64,
    capacity: Option<usize>,
)
    requires
        sound(entries),
        timely(entries, clock),
        clock < u64::MAX,
        tokens.len() == handle.token_len,
        capacity is Some ==> handle.token_len <= capacity->0,
    ensures
        ({
            let after = trimmed(stored(entries, tokens, handle, tick_after(clock)), capacity);
            &&& handle_on(after, tokens) == Some(handle)
            &&& longest_cached(after, tokens, tokens.len()) == (CacheLookup {
                matched_tokens: handle.token_len,
                handle: Some(handle),
            })
        }),
{
    let tick = tick_after(clock);
    let full = stored(entries, tokens, handle, tick);
    let leaf = storing_changes_one_handle(entries, tokens, handle, tick);
    stored_is_read_back(entries, tokens, handle, tick, tokens);
    let after = trimmed(full, capacity);
    assert(tokens.take(tokens.len() as int) =~= tokens);
    if capacity is Some && tokens_resident(full) > capacity->0 {
        let need = (tokens_resident(full) - capacity->0) as nat;
        assert forall|j: int|
            0 <= j < full.len() && j != leaf && (
            #[trigger] full[j]).handle is Some implies precedes(full, j, leaf) by {
            if j < entries.len() {
                assert(entries[j].tick <= clock);
            }
        }
        lemma_last_stays(full, leaf, need);
        eviction_spares_the_warmest(full, need);
        let first = entries.update(0, CacheEntry { tick, ..entries[0] });
        lemma_touch_keeps_handles(entries, first, tokens);
        lemma_grown_distinct(first, tokens, tick);
        lemma_grown_keeps(first, tokens, tick);
        let room = grown(first, tokens, tick);
        let home = entry_of(room, tokens);
        assert(0 <= home < room.len() && room[home].prefix == tokens);
        assert(distinct_prefixes(after)) by {
            assert forall|a: int, b: int|
                0 <= a < after.len() && 0 <= b < after.len() && #[trigger] after[a].prefix
                    == #[trigger] after[b].prefix implies a == b by {
                assert(room[a].prefix == full[a].prefix);
                assert(room[b].prefix == full[b].prefix);
            }
        }
        assert(after[leaf].prefix == tokens);
        lemma_entry_of(after, leaf);
    }
}

/// The tokens that a list of handles covers.
pub open spec fn tokens_covered(handles: Seq<KvCacheHandle>) -> nat
    decreases handles.len(),
{
    if handles.len() == 0 {
        0
    } else {
        handles[0].token_len as nat + tokens_covered(handles.drop_first())
    }
}

/// Eviction frees what was asked for or everything, and accounts for every
/// token: what stays and what goes add up to what was resident.
pub proof fn eviction_frees_enough(entries: Seq<CacheEntry>, need: nat)
    ensures
        ({
            let (rest, gone) = evicted(entries, need);
            &&& tokens_resident(rest) + tokens_covered(gone) == tokens_resident(entries)
            &&& tokens_covered(gone) >= need || handles_held(rest) == 0
            &&& handles_held(rest) + gone.len() == handles_held(entries)
        }),
    decreases handles_held(entries),
{
    if need != 0 && handles_held(entries) != 0 {
        lemma_coldest_exists(entries);
        let i = coldest(entries);
        lemma_drop_counts(entries, i);
        let h = entries[i].handle->0;
        let less: nat = if h.token_len >= need {
            0
        } else {
            (need - h.token_len) as nat
        };
        eviction_frees_enough(dropped(entries, i), less);
        let (rest, more) = evicted(dropped(entries, i), less);
        assert((seq![h] + more).drop_first() =~= more);
    }
}

/// Eviction touches nothing but handles, keeps a handle unchanged or drops it,
/// and never drops a handle that was used later than one it keeps.
pub proof fn eviction_spares_the_warmest(entries: Seq<CacheEntry>, need: nat)
    ensures
        ({
            let rest = evicted(entries, need).0;
            &&& rest.len() == entries.len()
            &&& forall|i: int|
                0 <= i < rest.len() ==> (#[trigger] rest[i]).prefix == entries[i].prefix
                    && rest[i].tick == entries[i].tick && (rest[i].handle is None
                    || rest[i].handle == entries[i].handle)
            &&& forall|i: int, j: int|
                0 <= i < rest.len() && 0 <= j < rest.len() && (#[trigger] entries[i]).handle is Some
                    && rest[i].handle is None && (#[trigger] rest[j]).handle is Some
                    ==> entries[i].tick <= entries[j].tick
        }),
    decreases handles_held(entries),
{
    if need != 0 && handles_held(entries) != 0 {
        lemma_coldest_exists(entries);
        let c = coldest(entries);
        lemma_drop_counts(entries, c);
        let h = entries[c].handle->0;
        let less: nat = if h.token_len >= need {
            0
        } else {
            (need - h.token_len) as nat
        };
        let fewer = dropped(entries, c);
        eviction_spares_the_warmest(fewer, less);
        let rest = evicted(entries, need).0;
        assert(rest == evicted(fewer, less).0);
        assert forall|i: int, j: int|
            0 <= i < rest.len() && 0 <= j < rest.len() && (#[trigger] entries[i]).handle is Some
                && rest[i].handle is None && (#[trigger] rest[j]).handle is Some implies entries[i].tick
            <= entries[j].tick by {
            assert(rest[j].handle == fewer[j].handle);
            assert(j != c);
            assert(entries[j].handle is Some);
            if i != c {
                assert(fewer[i].handle is Some);
            }
        }
    }
}

/// The entries whose handles an eviction drops, in the order in which they go.
pub open spec fn evicted_places(entries: Seq<CacheEntry>, need: nat) -> Seq<int>
    decreases handles_held(entries),
    via evicted_places_decreases
{
    if need == 0 || handles_held(entries) == 0 {
        Seq::empty()
    } else {
        let i = coldest(entries);
        let h = entries[i].handle->0;
        seq![i] + evicted_places(
            dropped(entries, i),
            if h.token_len >= need {
                0
            } else {
                (need - h.token_len) as nat
            },
        )
    }
}

#[via_fn]
proof fn evicted_places_decreases(entries: Seq<CacheEntry>, need: nat) {
    if need != 0 && handles_held(entries) != 0 {
        lemma_coldest_exists(entries);
        lemma_drop_counts(entries, coldest(entries));
    }
}

/// Whether an eviction that leaves `rest` dropped exactly the handles at some
/// places, each one before any that stays or goes later.
pub open spec fn dropped_in_order(
    entries: Seq<CacheEntry>,
    rest: Seq<CacheEntry>,
    gone: Seq<KvCacheHandle>,
    places: Seq<int>,
) -> bool {
    &&& places.len() == gone.len()
    &&& rest.len() == entries.len()
    &&& forall|k: int|
        0 <= k < places.len() ==> 0 <= #[trigger] places[k] < entries.len()
            && entries[places[k]].handle == Some(gone[k]) && rest[places[k]].handle is None
    &&& forall|a: int, b: int|
        0 <= a < b < places.len() ==> precedes(entries, #[trigger] places[a], #[trigger] places[b])
    &&& forall|j: int|
        0 <= j < entries.len() && !places.contains(j) ==> #[trigger] rest[j] == entries[j]
    &&& forall|k: int, j: int|
        0 <= k < places.len() && 0 <= j < entries.len() && (#[trigger] rest[j]).handle is Some
            ==> precedes(entries, #[trigger] places[k], j)
}

/// What is evicted is the shortest part that suffices of all handles in the order
/// of their last use: the handles go one by one in that order, without the last of
/// them too little would be free, and where that is not enough all of them go.
pub proof fn eviction_drops_the_shortest_part(entries: Seq<CacheEntry>, need: nat)
    ensures
        ({
            let (rest, gone) = evicted(entries, need);
            &&& dropped_in_order(entries, rest, gone, evicted_places(entries, need))
            &&& gone.len() > 0 ==> tokens_covered(gone.drop_last()) < need
            &&& tokens_covered(gone) >= need || handles_held(rest) == 0
        }),
    decreases handles_held(entries),
{
    eviction_frees_enough(entries, need);
    let (rest, gone) = evicted(entries, need);
    let places = evicted_places(entries, need);
    if need != 0 && handles_held(entries) != 0 {
        lemma_coldest_exists(entries);
        let c = coldest(entries);
        lemma_drop_counts(entries, c);
        let h = entries[c].handle->0;
        let less: nat = if h.token_len >= need {
            0
        } else {
            (need - h.token_len) as nat
        };
        let fewer = dropped(entries, c);
        eviction_drops_the_shortest_part(fewer, less);
        let (end, more) = evicted(fewer, less);
        let later = evicted_places(fewer, less);
        assert(rest == end);
        assert(gone == seq![h] + more);
        assert(places == seq![c] + later);
        assert forall|k: int| 0 <= k < places.len() implies 0 <= #[trigger] places[k]
            < entries.len() && entries[places[k]].handle == Some(gone[k])
            && rest[places[k]].handle is None && (k > 0 ==> places[k] != c) by {
            if k > 0 {
                assert(places[k] == later[k - 1]);
                assert(fewer[later[k - 1]].handle == Some(more[k - 1]));
            } else {
                assert(fewer[c].handle is None);
                if later.contains(c) {
                    let a = later.index_of(c);
                    assert(fewer[later[a]].handle == Some(more[a]));
                }
                assert(end[c] == fewer[c]);
            }
        }
        assert forall|a: int, b: int| 0 <= a < b < places.len() implies precedes(
            entries,
            #[trigger] places[a],
            #[trigger] places[b],
        ) by {
            assert(places[b] == later[b - 1]);
            assert(entries[places[b]].handle == Some(gone[b]));
            if a > 0 {
                assert(places[a] == later[a - 1]);
                assert(precedes(fewer, later[a - 1], later[b - 1]));
            }
        }
        assert forall|j: int| 0 <= j < entries.len() && !places.contains(j) implies
            #[trigger] rest[j] == entries[j] by {
            assert(places[0] == c);
            assert(j != c);
            if later.contains(j) {
                let a = later.index_of(j);
                assert(places[a + 1] == j);
            }
            assert(end[j] == fewer[j]);
        }
        assert forall|k: int, j: int|
            0 <= k < places.len() && 0 <= j < entries.len() && (
            #[trigger] rest[j]).handle is Some implies precedes(
            entries,
            #[trigger] places[k],
            j,
        ) by {
            assert(rest[places[0]].handle is None);
            assert(j != c);
            if later.contains(j) {
                let a = later.index_of(j);
                assert(end[later[a]].handle is None);
            }
            assert(end[j] == fewer[j]);
            assert(entries[j].handle is Some);
            if k > 0 {
                assert(places[k] == later[k - 1]);
                assert(precedes(fewer, later[k - 1], j));
            }
        }
        assert((seq![h] + more).drop_first() =~= more);
        if more.len() == 0 {
            assert(gone.drop_last() =~= Seq::empty());
        } else {
            assert(gone.drop_last() =~= seq![h] + more.drop_last());
            assert(gone.drop_last().drop_first() =~= more.drop_last());
            assert(less > 0);
        }
    }
}

/// The resident tokens of a cache with a capacity stay within it.
pub proof fn trimming_meets_the_capacity(entries: Seq<CacheEntry>, capacity: usize)
    ensures
        tokens_resident(trimmed(entries, Some(capacity))) <= capacity,
{
    if tokens_resident(entries) > capacity {
        let need = (tokens_resident(entries) - capacity) as nat;
        eviction_frees_enough(entries, need);
        let rest = evicted(entries, need).0;
        if handles_held(rest) == 0 {
            lemma_no_handle(rest);
        }
    }
}

/// Eviction stops as soon as enough is free: without the last handle that went, less
/// than was asked for would be.
pub proof fn eviction_stops_when_enough_is_free(entries: Seq<CacheEntry>, need: nat)
    ensures
        ({
            let gone = evicted(entries, need).1;
            gone.len() > 0 ==> tokens_covered(gone.drop_last()) < need
        }),
    decreases handles_held(entries),
{
    if need > 0 && handles_held(entries) > 0 {
        lemma_coldest_exists(entries);
        let i = coldest(entries);
        let h = entries[i].handle->0;
        let left = if h.token_len >= need {
            0
        } else {
            (need - h.token_len) as nat
        };
        lemma_drop_counts(entries, i);
        eviction_stops_when_enough_is_free(dropped(entries, i), left);
        let more = evicted(dropped(entries, i), left).1;
        let gone = evicted(entries, need).1;
        assert(gone == seq![h] + more);
        if more.len() == 0 {
            assert(gone.drop_last() =~= Seq::<KvCacheHandle>::empty());
        } else {
            assert(left > 0);
            assert(gone.drop_last() =~= seq![h] + more.drop_last());
            assert((seq![h] + more.drop_last()).drop_first() =~= more.drop_last());
        }
    }
}

/// What a lookup went by is not the next to go: as long as another handle lies off the
/// way, the coldest handle does.
pub proof fn looked_up_handles_are_not_the_coldest(
    entries: Seq<CacheEntry>,
    tokens: Seq<TokenId>,
    clock: u64,
    other: int,
    i: int,
)
    requires
        timely(entries, clock),
        clock < u64::MAX,
        0 <= other < entries.len(),
        entries[other].handle is Some,
        !entries[other].prefix.is_prefix_of(tokens),
        is_coldest(touched(entries, tokens, tick_after(clock)), i),
    ensures
        !entries[i].prefix.is_prefix_of(tokens),
{
    let after = touched(entries, tokens, tick_after(clock));
    assert(after[other].handle is Some);
    assert(after[other].tick == entries[other].tick);
}

} // verus!
