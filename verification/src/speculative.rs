//! Speculative decoding: a draft model proposes tokens, a target model says
//! which token it expects in place of each, and the longest agreeing run is kept.

use vstd::prelude::*;
use vstd::string::*;
use crate::constraints::{CfgMatcher, Guidance, LlguidanceMatcher};
use crate::model_pool::ModelPool;
use crate::radix_cache::{CacheLookup, TokenId};
use crate::scalar::F32;
use crate::slot_manager::SlotId;
use crate::text::text_with_numbers;

verus! {

/// A proposed token and how sure its model is.
#[derive(Debug, Clone, Copy, PartialEq)]
pub struct NextTokenPrediction {
    pub token: TokenId,
    pub confidence: F32,
}

/// The token that the target model expects at one position.
#[derive(Debug, Clone, Copy, PartialEq, Eq, Structural)]
pub struct VerifyStep {
    pub expected: TokenId,
}

/// The target model's expected token after each node of a tree.
#[derive(Debug, Clone, PartialEq, Eq)]
pub struct TreeVerifyResult {
    pub expected: Vec<TokenId>,
}

/// A tree of drafted tokens for parallel verification.
#[derive(Debug, Clone, PartialEq)]
pub struct SpeculativeTree {
    pub nodes: Vec<TreeNode>,
}

#[derive(Debug, Clone, Copy, PartialEq, Eq, Structural)]
pub struct TreeNode {
    pub token: TokenId,
    /// Index of parent node in SpeculativeTree::nodes
    pub parent: Option<usize>,
}

/// Counts of one session. A count that reaches the largest number stays there.
#[derive(Debug, Clone, Copy, PartialEq, Eq, Structural)]
pub struct SpeculativeStats {
    pub draft_calls: usize,
    pub target_calls: usize,
    pub drafted_tokens: usize,
    pub accepted_tokens: usize,
    pub rejected_tokens: usize,
}

pub open spec fn no_stats() -> SpeculativeStats {
    SpeculativeStats {
        draft_calls: 0,
        target_calls: 0,
        drafted_tokens: 0,
        accepted_tokens: 0,
        rejected_tokens: 0,
    }
}

impl Default for SpeculativeStats {
    fn default() -> (s: Self)
        ensures
            s == no_stats(),
    {
        SpeculativeStats {
            draft_calls: 0,
            target_calls: 0,
            drafted_tokens: 0,
            accepted_tokens: 0,
            rejected_tokens: 0,
        }
    }
}

/// `a + b`, but never more than the largest number.
pub open spec fn plus(a: usize, b: nat) -> usize {
    if a + b > usize::MAX {
        usize::MAX
    } else {
        (a + b) as usize
    }
}

#[derive(Debug, Clone, PartialEq, Eq)]
pub enum SpeculativeError {
    EmptyDraftWindow,
    DraftReturnedTooMany { requested: usize, returned: usize },
    TargetReturnedWrongLength { drafted: usize, returned: usize },
    Model(String),
}

impl SpeculativeError {
    /// The message of the error.
    pub open spec fn text(self) -> Seq<char> {
        match self {
            SpeculativeError::EmptyDraftWindow => "draft window must be greater than zero"@,
            SpeculativeError::DraftReturnedTooMany { requested, returned } =>
                "draft model returned "@ + crate::text::decimal(returned as nat) + " tokens after "@
                + crate::text::decimal(requested as nat) + " were requested"@,
            SpeculativeError::TargetReturnedWrongLength { drafted, returned } =>
                "target model returned "@ + crate::text::decimal(returned as nat)
                + " verification steps for "@ + crate::text::decimal(drafted as nat)
                + " drafted tokens"@,
            SpeculativeError::Model(message) => message@,
        }
    }

    pub fn to_string(&self) -> (s: String)
        ensures
            s@ == self.text(),
    {
        match self {
            SpeculativeError::EmptyDraftWindow => String::from_str(
                "draft window must be greater than zero",
            ),
            SpeculativeError::DraftReturnedTooMany { requested, returned } => text_with_numbers(
                "draft model returned ",
                *returned as u64,
                " tokens after ",
                *requested as u64,
                " were requested",
            ),
            SpeculativeError::TargetReturnedWrongLength { drafted, returned } => text_with_numbers(
                "target model returned ",
                *returned as u64,
                " verification steps for ",
                *drafted as u64,
                " drafted tokens",
            ),
            SpeculativeError::Model(message) => message.clone(),
        }
    }
}

/// A model error with the message `text`.
pub fn model_error(text: &str) -> (e: SpeculativeError)
    ensures
        e is Model,
        e.text() == text@,
{
    SpeculativeError::Model(String::from_str(text))
}

// ---------------------------------------------------------------------------
// Trees
// ---------------------------------------------------------------------------

/// The tokens from a root down to node `i`, if a root is reached within `steps`
/// steps and without leaving the tree.
pub open spec fn path_within(nodes: Seq<TreeNode>, i: int, steps: nat) -> Option<Seq<TokenId>>
    decreases steps,
{
    if !(0 <= i < nodes.len()) {
        None
    } else {
        match nodes[i].parent {
            None => Some(seq![nodes[i].token]),
            Some(p) => if steps == 0 {
                None
            } else {
                match path_within(nodes, p as int, (steps - 1) as nat) {
                    Some(path) => Some(path.push(nodes[i].token)),
                    None => None,
                }
            },
        }
    }
}

/// Whether the parents of node `i` lead to a root.
pub open spec fn rooted(nodes: Seq<TreeNode>, i: int) -> bool {
    exists|steps: nat| path_within(nodes, i, steps) is Some
}

/// The tokens from the root down to node `i`.
pub open spec fn path_of(nodes: Seq<TreeNode>, i: int) -> Seq<TokenId> {
    path_within(nodes, i, choose|steps: nat| path_within(nodes, i, steps) is Some)->0
}

proof fn lemma_path_steps(nodes: Seq<TreeNode>, i: int, a: nat, b: nat)
    requires
        path_within(nodes, i, a) is Some,
        a <= b,
    ensures
        path_within(nodes, i, b) == path_within(nodes, i, a),
    decreases a,
{
    match nodes[i].parent {
        None => {},
        Some(p) => {
            lemma_path_steps(nodes, p as int, (a - 1) as nat, (b - 1) as nat);
        },
    }
}

proof fn lemma_path_is(nodes: Seq<TreeNode>, i: int, steps: nat)
    requires
        path_within(nodes, i, steps) is Some,
    ensures
        rooted(nodes, i),
        path_of(nodes, i) == path_within(nodes, i, steps)->0,
{
    let s = choose|s: nat| path_within(nodes, i, s) is Some;
    if s <= steps {
        lemma_path_steps(nodes, i, s, steps);
    } else {
        lemma_path_steps(nodes, i, steps, s);
    }
}

proof fn lemma_path_of_child(nodes: Seq<TreeNode>, i: int, p: int)
    requires
        0 <= i < nodes.len(),
        nodes[i].parent == Some(p as usize),
        0 <= p <= usize::MAX,
        rooted(nodes, p),
    ensures
        rooted(nodes, i),
        path_of(nodes, i) == path_of(nodes, p).push(nodes[i].token),
{
    let s = choose|s: nat| path_within(nodes, p, s) is Some;
    lemma_path_is(nodes, p, s);
    assert(path_within(nodes, i, s + 1) is Some);
    lemma_path_is(nodes, i, s + 1);
}

/// Whether the target model confirms node `i`: it is the first node, or its
/// parent comes before it, is confirmed, and is expected to be followed by it.
pub open spec fn confirmed(nodes: Seq<TreeNode>, expected: Seq<TokenId>, i: int) -> bool
    decreases i,
{
    if i <= 0 {
        i == 0
    } else {
        match nodes[i].parent {
            Some(p) => p < i && confirmed(nodes, expected, p as int) && nodes[i].token
                == expected[p as int],
            None => false,
        }
    }
}

/// Whether node `i` ends the best of the confirmed paths below `n`: none is
/// longer, and among equally long ones it is the last.
pub open spec fn best_node(nodes: Seq<TreeNode>, expected: Seq<TokenId>, n: int, i: int) -> bool {
    &&& 0 <= i < n
    &&& confirmed(nodes, expected, i)
    &&& forall|j: int|
        0 <= j < n && #[trigger] confirmed(nodes, expected, j) ==> path_of(nodes, j).len()
            < path_of(nodes, i).len() || (path_of(nodes, j).len() == path_of(nodes, i).len() && j
            <= i)
}

/// What a tree and the target model's answer must meet for the best path to be
/// defined: parents lie inside the tree, every parent that is confirmed has an
/// expected token, and the first node leads to a root.
pub open spec fn judgeable(nodes: Seq<TreeNode>, expected: Seq<TokenId>) -> bool {
    &&& nodes.len() > 0
    &&& rooted(nodes, 0)
    &&& forall|i: int|
        1 <= i < nodes.len() && (#[trigger] nodes[i]).parent is Some ==> nodes[i].parent->0
            < nodes.len() && (nodes[i].parent->0 < i && confirmed(
            nodes,
            expected,
            nodes[i].parent->0 as int,
        ) ==> nodes[i].parent->0 < expected.len())
}

proof fn lemma_confirmed_rooted(nodes: Seq<TreeNode>, expected: Seq<TokenId>, i: int)
    requires
        rooted(nodes, 0),
        0 <= i < nodes.len(),
        confirmed(nodes, expected, i),
    ensures
        rooted(nodes, i),
        path_of(nodes, i).len() > 0,
    decreases i,
{
    if i == 0 {
        let s = choose|s: nat| path_within(nodes, 0, s) is Some;
        lemma_path_is(nodes, 0, s);
    } else {
        let p = nodes[i].parent->0 as int;
        lemma_confirmed_rooted(nodes, expected, p);
        lemma_path_of_child(nodes, i, p);
    }
}

impl SpeculativeTree {
    pub fn new(token: TokenId) -> (tree: Self)
        ensures
            tree.nodes@ == seq![TreeNode { token, parent: None }],
    {
        let mut nodes: Vec<TreeNode> = Vec::new();
        nodes.push(TreeNode { token, parent: None });
        assert(nodes@ =~= seq![TreeNode { token, parent: None }]);
        SpeculativeTree { nodes }
    }

    pub fn add_child(&mut self, parent_idx: usize, token: TokenId) -> (idx: usize)
        ensures
            idx == old(self).nodes@.len(),
            final(self).nodes@ == old(self).nodes@.push(
                TreeNode { token, parent: Some(parent_idx) },
            ),
    {
        let idx: usize = self.nodes.len();
        self.nodes.push(TreeNode { token, parent: Some(parent_idx) });
        idx
    }

    /// Returns the sequence of tokens from the root to the given node.
    pub fn get_path(&self, node_idx: usize) -> (path: Vec<TokenId>)
        requires
            rooted(self.nodes@, node_idx as int),
        ensures
            path@ == path_of(self.nodes@, node_idx as int),
    {
        let ghost nodes = self.nodes@;
        let ghost mut steps = choose|s: nat| path_within(nodes, node_idx as int, s) is Some;
        let ghost whole = path_of(nodes, node_idx as int);
        let mut at: usize = node_idx;
        let mut up: Vec<TokenId> = Vec::new();
        let mut more: bool = true;
        while more
            invariant
                nodes == self.nodes@,
                more ==> path_within(nodes, at as int, steps) is Some && whole == path_within(
                    nodes,
                    at as int,
                    steps,
                )->0 + up@.reverse(),
                !more ==> whole == up@.reverse(),
            decreases steps, (if more { 1int } else { 0int }),
        {
            let ghost before = up@;
            let node = self.nodes[at];
            up.push(node.token);
            assert(up@.reverse() =~= seq![node.token] + before.reverse());
            match node.parent {
                Some(p) => {
                    proof {
                        let above = path_within(nodes, p as int, (steps - 1) as nat)->0;
                        assert(above.push(node.token) + before.reverse() =~= above
                            + up@.reverse());
                        steps = (steps - 1) as nat;
                    }
                    at = p;
                },
                None => {
                    more = false;
                },
            }
        }
        let mut path: Vec<TokenId> = Vec::with_capacity(up.len());
        let mut k: usize = up.len();
        while k > 0
            invariant
                k <= up@.len(),
                path@ == up@.reverse().take(up@.len() - k),
            decreases k,
        {
            k = k - 1;
            path.push(up[k]);
            assert(path@ =~= up@.reverse().take(up@.len() - k));
        }
        assert(path@ =~= up@.reverse());
        path
    }

    /// The longest path whose every step the target model expects, and the
    /// token it expects after that path.
    pub fn find_best_path(&self, verified: &TreeVerifyResult) -> (best: (
        Vec<TokenId>,
        Option<TokenId>,
    ))
        requires
            judgeable(self.nodes@, verified.expected@),
        ensures
            exists|i: int|
                #![trigger best_node(self.nodes@, verified.expected@, self.nodes@.len() as int, i)]
                best_node(self.nodes@, verified.expected@, self.nodes@.len() as int, i) && best.0@
                    == path_of(self.nodes@, i) && best.1 == (if i < verified.expected@.len() {
                    Some(verified.expected@[i])
                } else {
                    None::<TokenId>
                }),
    {
        let ghost nodes = self.nodes@;
        let ghost expected = verified.expected@;
        let n: usize = self.nodes.len();
        let mut valid: Vec<bool> = Vec::with_capacity(n);
        valid.push(true);
        let mut i: usize = 1;
        while i < n
            invariant
                nodes == self.nodes@,
                expected == verified.expected@,
                judgeable(nodes, expected),
                n == nodes.len(),
                1 <= i <= n,
                valid@.len() == i,
                forall|j: int| 0 <= j < i ==> #[trigger] valid@[j] == confirmed(nodes, expected, j),
            decreases n - i,
        {
            let ok: bool = match self.nodes[i].parent {
                Some(p) => {
                    if p < i && valid[p] {
                        assert(nodes[i as int].parent is Some);
                        assert(confirmed(nodes, expected, p as int));
                        self.nodes[i].token == verified.expected[p]
                    } else {
                        false
                    }
                },
                None => false,
            };
            valid.push(ok);
            i = i + 1;
        }
        proof {
            assert(confirmed(nodes, expected, 0));
            lemma_confirmed_rooted(nodes, expected, 0);
        }
        let mut best_path: Vec<TokenId> = self.get_path(0);
        let mut rejected_token: Option<TokenId> = if 0 < verified.expected.len() {
            Some(verified.expected[0])
        } else {
            None
        };
        let ghost mut best: int = 0;
        let mut i: usize = 1;
        while i < n
            invariant
                nodes == self.nodes@,
                expected == verified.expected@,
                judgeable(nodes, expected),
                n == nodes.len(),
                1 <= i <= n,
                valid@.len() == n,
                forall|j: int| 0 <= j < n ==> #[trigger] valid@[j] == confirmed(nodes, expected, j),
                best_node(nodes, expected, i as int, best),
                best_path@ == path_of(nodes, best),
                rejected_token == (if best < expected.len() {
                    Some(expected[best])
                } else {
                    None::<TokenId>
                }),
            decreases n - i,
        {
            if valid[i] {
                proof {
                    lemma_confirmed_rooted(nodes, expected, i as int);
                }
                let path: Vec<TokenId> = self.get_path(i);
                if path.len() >= best_path.len() {
                    best_path = path;
                    rejected_token = if i < verified.expected.len() {
                        Some(verified.expected[i])
                    } else {
                        None
                    };
                    proof {
                        best = i as int;
                    }
                }
            }
            i = i + 1;
        }
        assert(best_node(nodes, expected, n as int, best));
        (best_path, rejected_token)
    }
}

/// The best node is unique, so a tree has one best path.
pub proof fn best_node_is_unique(
    nodes: Seq<TreeNode>,
    expected: Seq<TokenId>,
    n: int,
    a: int,
    b: int,
)
    requires
        best_node(nodes, expected, n, a),
        best_node(nodes, expected, n, b),
    ensures
        a == b,
{
    assert(confirmed(nodes, expected, a));
    assert(confirmed(nodes, expected, b));
}

/// The nodes of a tree that is one chain of `tokens`.
pub open spec fn chain_nodes(tokens: Seq<TokenId>) -> Seq<TreeNode> {
    Seq::new(
        tokens.len(),
        |i: int|
            TreeNode {
                token: tokens[i],
                parent: if i == 0 {
                    None
                } else {
                    Some((i - 1) as usize)
                },
            },
    )
}

/// The tokens of some predictions.
pub open spec fn tokens_of(predictions: Seq<NextTokenPrediction>) -> Seq<TokenId> {
    predictions.map_values(|p: NextTokenPrediction| p.token)
}

/// The tokens of some verification steps.
pub open spec fn steps_of(steps: Seq<VerifyStep>) -> Seq<TokenId> {
    steps.map_values(|s: VerifyStep| s.expected)
}

/// A tree that is the chain of the predicted tokens. There must be one.
pub fn chain_tree(linear: &Vec<NextTokenPrediction>) -> (r: Result<
    SpeculativeTree,
    SpeculativeError,
>)
    ensures
        linear@.len() == 0 ==> r is Err && r->Err_0 is Model && r->Err_0.text()
            == "Draft model returned no tokens"@,
        linear@.len() > 0 ==> r is Ok && r->Ok_0.nodes@ == chain_nodes(tokens_of(linear@)),
{
    if linear.len() == 0 {
        return Err(model_error("Draft model returned no tokens"));
    }
    let mut tree = SpeculativeTree::new(linear[0].token);
    let mut last_idx: usize = 0;
    let mut i: usize = 1;
    let ghost tokens = tokens_of(linear@);
    assert(tree.nodes@ =~= chain_nodes(tokens).take(1));
    while i < linear.len()
        invariant
            tokens == tokens_of(linear@),
            1 <= i <= linear@.len(),
            last_idx == i - 1,
            tree.nodes@ == chain_nodes(tokens).take(i as int),
        decreases linear@.len() - i,
    {
        last_idx = tree.add_child(last_idx, linear[i].token);
        i = i + 1;
        assert(tree.nodes@ =~= chain_nodes(tokens).take(i as int));
    }
    assert(tree.nodes@ =~= chain_nodes(tokens));
    Ok(tree)
}

/// Whether node `c` is the first child of node `i`.
pub open spec fn is_first_child(nodes: Seq<TreeNode>, i: int, c: int) -> bool {
    &&& 0 <= c < nodes.len()
    &&& nodes[c].parent == Some(i as usize)
    &&& forall|j: int| 0 <= j < c ==> (#[trigger] nodes[j]).parent != Some(i as usize)
}

/// Whether node `i` has no child.
pub open spec fn is_leaf(nodes: Seq<TreeNode>, i: int) -> bool {
    forall|j: int| 0 <= j < nodes.len() ==> (#[trigger] nodes[j]).parent != Some(i as usize)
}

/// Whether `indices` is the leftmost branch from node `start` down: each node
/// is followed by its first child, and the last one has none.
pub open spec fn is_leftmost_branch(
    nodes: Seq<TreeNode>,
    start: int,
    indices: Seq<usize>,
) -> bool {
    &&& indices.len() > 0
    &&& indices[0] == start
    &&& forall|k: int|
        0 <= k < indices.len() - 1 ==> is_first_child(
            nodes,
            #[trigger] indices[k] as int,
            indices[k + 1] as int,
        )
    &&& is_leaf(nodes, indices.last() as int)
}

/// Whether the leftmost branch of a tree comes to an end.
pub open spec fn has_leftmost_branch(nodes: Seq<TreeNode>) -> bool {
    nodes.len() > 0 && exists|indices: Seq<usize>| is_leftmost_branch(nodes, 0, indices)
}

/// The leftmost branch of a tree.
pub fn leftmost_branch(tree: &SpeculativeTree) -> (indices: Vec<usize>)
    requires
        has_leftmost_branch(tree.nodes@),
    ensures
        is_leftmost_branch(tree.nodes@, 0, indices@),
        forall|k: int| 0 <= k < indices@.len() ==> #[trigger] indices@[k] < tree.nodes@.len(),
{
    let ghost nodes = tree.nodes@;
    let ghost whole = choose|indices: Seq<usize>| is_leftmost_branch(nodes, 0, indices);
    let mut indices: Vec<usize> = Vec::new();
    let mut curr: usize = 0;
    let mut more: bool = true;
    indices.push(0);
    while more
        invariant
            nodes == tree.nodes@,
            is_leftmost_branch(nodes, 0, whole),
            curr < nodes.len(),
            0 < indices@.len() <= whole.len(),
            indices@ =~= whole.take(indices@.len() as int),
            indices@.last() == curr,
            forall|k: int| 0 <= k < indices@.len() ==> #[trigger] indices@[k] < nodes.len(),
            !more ==> indices@.len() == whole.len(),
        decreases whole.len() - indices@.len(), (if more { 1int } else { 0int }),
    {
        let mut j: usize = 0;
        while j < tree.nodes.len() && tree.nodes[j].parent != Some(curr)
            invariant
                nodes == tree.nodes@,
                j <= nodes.len(),
                forall|k: int| 0 <= k < j ==> (#[trigger] nodes[k]).parent != Some(curr),
            decreases nodes.len() - j,
        {
            j = j + 1;
        }
        let ghost last = indices@.len() - 1;
        assert(whole[last] == curr);
        if j < tree.nodes.len() {
            assert(last < whole.len() - 1);
            assert(is_first_child(nodes, whole[last] as int, whole[last + 1] as int));
            assert(whole[last + 1] == j);
            indices.push(j);
            curr = j;
        } else {
            proof {
                if last < whole.len() - 1 {
                    assert(is_first_child(nodes, whole[last] as int, whole[last + 1] as int));
                    assert(nodes[whole[last + 1] as int].parent == Some(curr));
                }
            }
            more = false;
        }
    }
    assert(indices@ =~= whole);
    indices
}

/// Parents come before their children.
pub open spec fn in_order(nodes: Seq<TreeNode>) -> bool {
    forall|i: int|
        0 <= i < nodes.len() && (#[trigger] nodes[i]).parent is Some ==> nodes[i].parent->0 < i
}

/// A tree that was built downwards has a leftmost branch from each of its nodes.
pub proof fn built_trees_have_a_leftmost_branch(nodes: Seq<TreeNode>, start: int) -> (indices: Seq<
    usize,
>)
    requires
        in_order(nodes),
        0 <= start < nodes.len() <= usize::MAX,
    ensures
        is_leftmost_branch(nodes, start, indices),
    decreases nodes.len() - start,
{
    if is_leaf(nodes, start) {
        seq![start as usize]
    } else {
        let some = choose|j: int|
            0 <= j < nodes.len() && (#[trigger] nodes[j]).parent == Some(start as usize);
        let first = lemma_first_child(nodes, start, some);
        assert(nodes[first].parent is Some);
        let rest = built_trees_have_a_leftmost_branch(nodes, first);
        let whole = seq![start as usize] + rest;
        assert forall|k: int| 0 <= k < whole.len() - 1 implies is_first_child(
            nodes,
            #[trigger] whole[k] as int,
            whole[k + 1] as int,
        ) by {
            if k > 0 {
                assert(rest[k - 1] == whole[k]);
                assert(rest[k - 1 + 1] == whole[k + 1]);
            }
        }
        assert(whole.last() == rest.last());
        whole
    }
}

proof fn lemma_first_child(nodes: Seq<TreeNode>, i: int, some: int) -> (first: int)
    requires
        0 <= some < nodes.len(),
        nodes[some].parent == Some(i as usize),
    ensures
        is_first_child(nodes, i, first),
    decreases some,
{
    if exists|j: int| 0 <= j < some && (#[trigger] nodes[j]).parent == Some(i as usize) {
        let j = choose|j: int| 0 <= j < some && (#[trigger] nodes[j]).parent == Some(i as usize);
        lemma_first_child(nodes, i, j)
    } else {
        some
    }
}

/// Zeros with the steps' tokens at the given places: step `k` goes to place
/// `indices[k]`, and steps or places without a counterpart are left out.
pub open spec fn spread(len: nat, indices: Seq<usize>, steps: Seq<VerifyStep>, n: nat) -> Seq<
    TokenId,
>
    decreases n,
{
    if n == 0 {
        Seq::new(len, |i: int| 0u32)
    } else {
        spread(len, indices, steps, (n - 1) as nat).update(
            indices[n - 1] as int,
            steps[n - 1].expected,
        )
    }
}

/// The number of pairs when two lists are walked side by side.
pub open spec fn paired(a: nat, b: nat) -> nat {
    if a < b {
        a
    } else {
        b
    }
}

/// The expected token for every node when only the nodes `indices` were asked for.
pub fn spread_expected(len: usize, indices: &Vec<usize>, steps: &Vec<VerifyStep>) -> (r:
    TreeVerifyResult)
    requires
        forall|k: int| 0 <= k < indices@.len() ==> #[trigger] indices@[k] < len,
    ensures
        r.expected@ == spread(
            len as nat,
            indices@,
            steps@,
            paired(indices@.len(), steps@.len()),
        ),
{
    let mut expected: Vec<TokenId> = Vec::with_capacity(len);
    let mut i: usize = 0;
    while i < len
        invariant
            i <= len,
            expected@ == Seq::new(i as nat, |i: int| 0u32),
        decreases len - i,
    {
        expected.push(0);
        i = i + 1;
        assert(expected@ =~= Seq::new(i as nat, |i: int| 0u32));
    }
    let mut k: usize = 0;
    while k < indices.len() && k < steps.len()
        invariant
            forall|k: int| 0 <= k < indices@.len() ==> #[trigger] indices@[k] < len,
            k <= indices@.len(),
            k <= steps@.len(),
            expected@.len() == len,
            expected@ == spread(len as nat, indices@, steps@, k as nat),
        decreases indices@.len() - k,
    {
        let at: usize = indices[k];
        expected.set(at, steps[k].expected);
        k = k + 1;
    }
    TreeVerifyResult { expected }
}

// ---------------------------------------------------------------------------
// Models
// ---------------------------------------------------------------------------

/// One request of a draft batch.
pub struct DraftRequest<M> {
    pub context: Vec<TokenId>,
    pub max_tokens: usize,
    pub matcher: Option<M>,
}

/// One request of a verification batch.
pub struct VerifyRequest<M> {
    pub context: Vec<TokenId>,
    pub drafted: Vec<TokenId>,
    pub matcher: Option<M>,
}

/// What a call leaves when it does nothing: success, and the model as it was.
pub open spec fn left_alone<T>(before: T, after: T, r: Result<(), SpeculativeError>) -> bool {
    r is Ok && after == before
}

/// How far a matcher has come, if there is one.
pub open spec fn fed_with<M: CfgMatcher>(matcher: Option<M>) -> Option<Guidance> {
    match matcher {
        Some(m) => Some(m.guided()),
        None => None,
    }
}

/// How far a matcher that a call is handed, if any, has come before the call.
pub open spec fn handed<M: CfgMatcher>(matcher: Option<&mut M>) -> Option<Guidance> {
    match matcher {
        Some(m) => Some((*m).guided()),
        None => None,
    }
}

/// What a draft is asked for: up to so many tokens after a context, with a
/// matcher that has come so far, if there is one.
pub struct DraftAsk {
    pub context: Seq<TokenId>,
    pub max_tokens: usize,
    pub fed: Option<Guidance>,
}

/// What a verdict is asked for: on a draft after a context, with a matcher that
/// has come so far, if there is one.
pub struct VerifyAsk {
    pub context: Seq<TokenId>,
    pub drafted: Seq<TokenId>,
    pub fed: Option<Guidance>,
}

/// A call of `DraftModel::draft` on a model in state `before`: what it was asked
/// for, how far its matcher came, and what it answered.
pub struct DraftCall<D> {
    pub before: D,
    pub ask: DraftAsk,
    pub after: D,
    pub fed: Option<Guidance>,
    pub answer: Result<Vec<NextTokenPrediction>, SpeculativeError>,
}

/// A call of `TargetModel::verify` on a model in state `before`: what it was
/// asked for, how far its matcher came, and what it answered.
pub struct VerifyCall<T> {
    pub before: T,
    pub ask: VerifyAsk,
    pub after: T,
    pub fed: Option<Guidance>,
    pub answer: Result<Vec<VerifyStep>, SpeculativeError>,
}

/// What the requests of a batch ask for.
pub open spec fn draft_asks<M: CfgMatcher>(requests: Seq<DraftRequest<M>>) -> Seq<DraftAsk> {
    requests.map_values(
        |r: DraftRequest<M>|
            DraftAsk { context: r.context@, max_tokens: r.max_tokens, fed: fed_with(r.matcher) },
    )
}

/// What the requests of a batch ask for.
pub open spec fn verify_asks<M: CfgMatcher>(requests: Seq<VerifyRequest<M>>) -> Seq<VerifyAsk> {
    requests.map_values(
        |r: VerifyRequest<M>|
            VerifyAsk { context: r.context@, drafted: r.drafted@, fed: fed_with(r.matcher) },
    )
}

/// Whether a call is among those that a model may answer so.
pub open spec fn admits<C>(calls: spec_fn(C) -> bool, call: C) -> bool {
    calls(call)
}

/// A fast model that proposes tokens.
///
/// The spec functions say what an implementation may answer; those that do not
/// give them a body promise nothing.
pub trait DraftModel: Sized {
    /// Whether binding a prefix may leave the model so, with this result.
    open spec fn prefix_bound(
        before: Self,
        prefix: CacheLookup,
        after: Self,
        r: Result<(), SpeculativeError>,
    ) -> bool {
        true
    }

    /// Whether binding a slot may leave the model so, with this result.
    open spec fn slot_bound(
        before: Self,
        slot: SlotId,
        after: Self,
        r: Result<(), SpeculativeError>,
    ) -> bool {
        true
    }

    /// Whether switching to the model called `name` may leave this one so, with
    /// this result.
    open spec fn switched(
        before: Self,
        name: Seq<char>,
        after: Self,
        r: Result<(), SpeculativeError>,
    ) -> bool {
        true
    }

    /// Whether a call of `draft` may come about.
    open spec fn drafts(call: DraftCall<Self>) -> bool {
        true
    }

    /// Whether a call of `draft_batch` that is more than one draft after the
    /// other may leave the model and the requests so, with this result.
    open spec fn drafts_together(
        before: Self,
        asks: Seq<DraftAsk>,
        after: Self,
        left: Seq<DraftAsk>,
        r: Result<Vec<Vec<NextTokenPrediction>>, SpeculativeError>,
    ) -> bool {
        true
    }

    fn bind_prefix_cache(&mut self, prefix: &CacheLookup) -> (r: Result<(), SpeculativeError>)
        ensures
            Self::prefix_bound(*old(self), *prefix, *final(self), r) || left_alone(
                *old(self),
                *final(self),
                r,
            ),
        default_ensures
            left_alone(*old(self), *final(self), r),
    {
        Ok(())
    }

    fn bind_slot(&mut self, slot: SlotId) -> (r: Result<(), SpeculativeError>)
        ensures
            Self::slot_bound(*old(self), slot, *final(self), r) || left_alone(
                *old(self),
                *final(self),
                r,
            ),
        default_ensures
            left_alone(*old(self), *final(self), r),
    {
        Ok(())
    }

    /// Switches to another model of a pool; by default the model stays as it is.
    fn switch_model<P>(&mut self, name: &str, pool: &ModelPool<P>) -> (r: Result<
        (),
        SpeculativeError,
    >)
        ensures
            Self::switched(*old(self), name@, *final(self), r) || left_alone(
                *old(self),
                *final(self),
                r,
            ),
        default_ensures
            left_alone(*old(self), *final(self), r),
    {
        Ok(())
    }

    /// Proposes up to `max_tokens` tokens that follow `context`. A matcher says
    /// which tokens are allowed.
    fn draft<M: CfgMatcher>(
        &mut self,
        context: &[TokenId],
        max_tokens: usize,
        matcher: Option<&mut M>,
    ) -> (r: Result<Vec<NextTokenPrediction>, SpeculativeError>)
        ensures
            Self::drafts(DraftCall {
                    before: *old(self),
                    ask: DraftAsk { context: context@, max_tokens, fed: handed(matcher) },
                    after: *final(self),
                    fed: (if matcher is Some { Some(final(matcher->0).guided()) } else { None }),
                    answer: r,
                }),
    ;

    /// Proposes a tree of tokens; by default the chain of the drafted ones.
    fn draft_tree<M: CfgMatcher>(
        &mut self,
        context: &[TokenId],
        max_tokens: usize,
        width: usize,
        matcher: Option<&mut M>,
    ) -> (r: Result<SpeculativeTree, SpeculativeError>)
        default_ensures
            exists|linear: Result<Vec<NextTokenPrediction>, SpeculativeError>| #[trigger]
                is_chain_of(linear, r) && Self::drafts(DraftCall {
                        before: *old(self),
                        ask: DraftAsk { context: context@, max_tokens, fed: handed(matcher) },
                        after: *final(self),
                        fed: (if matcher is Some { Some(final(matcher->0).guided()) } else { None }),
                        answer: linear,
                    }),
    {
        let linear: Result<Vec<NextTokenPrediction>, SpeculativeError> = self.draft(
            context,
            max_tokens,
            matcher,
        );
        let ghost drafted = linear;
        let tree: Result<SpeculativeTree, SpeculativeError> = match linear {
            Ok(linear) => chain_tree(&linear),
            Err(e) => Err(e),
        };
        assert(is_chain_of(drafted, tree));
        tree
    }

    /// Drafts for every request, one result for each; by default one after the
    /// other, until the first error.
    fn draft_batch<M: CfgMatcher>(&mut self, requests: &mut Vec<DraftRequest<M>>) -> (r: Result<
        Vec<Vec<NextTokenPrediction>>,
        SpeculativeError,
    >)
        ensures
            r is Ok ==> r->Ok_0@.len() == old(requests)@.len(),
            Self::drafts_together(
                *old(self),
                draft_asks(old(requests)@),
                *final(self),
                draft_asks(final(requests)@),
                r,
            )
                || drafted_in_turn(
                |call: DraftCall<Self>| Self::drafts(call),
                *old(self),
                draft_asks(old(requests)@),
                *final(self),
                draft_asks(final(requests)@),
                r,
            ),
        default_ensures
            drafted_in_turn(
                |call: DraftCall<Self>| Self::drafts(call),
                *old(self),
                draft_asks(old(requests)@),
                *final(self),
                draft_asks(final(requests)@),
                r,
            ),
    {
        let mut results: Vec<Vec<NextTokenPrediction>> = Vec::with_capacity(requests.len());
        let ghost calls = |call: DraftCall<Self>| Self::drafts(call);
        let ghost before = requests@;
        let ghost asks = draft_asks(before);
        let ghost mut states: Seq<Self> = seq![*self];
        let mut i: usize = 0;
        while i < requests.len()
            invariant
                i <= requests@.len(),
                before == old(requests)@,
                asks == draft_asks(before),
                requests@.len() == before.len(),
                results@.len() == i,
                calls == (|call: DraftCall<Self>| Self::drafts(call)),
                states.len() == i + 1,
                states[0] == *old(self),
                states[i as int] == *self,
                forall|k: int| i <= k < before.len() ==> requests@[k] == before[k],
                forall|k: int|
                    0 <= k < i ==> #[trigger] drafted_at(
                        calls,
                        states,
                        asks,
                        draft_asks(requests@),
                        k,
                        Ok(results@[k]),
                    ),
            decreases requests@.len() - i,
        {
            let ghost so_far = requests@;
            let ghost known = results@;
            let ghost seen = states;
            let request = &mut requests[i];
            let outcome: Result<Vec<NextTokenPrediction>, SpeculativeError> = self.draft(
                &request.context,
                request.max_tokens,
                request.matcher.as_mut(),
            );
            proof {
                states = states.push(*self);
                assert(drafted_at(calls, states, asks, draft_asks(requests@), i as int, outcome));
                assert forall|k: int| 0 <= k < i implies #[trigger] drafted_at(
                    calls,
                    states,
                    asks,
                    draft_asks(requests@),
                    k,
                    Ok(known[k]),
                ) by {
                    assert(drafted_at(calls, seen, asks, draft_asks(so_far), k, Ok(known[k])));
                }
            }
            match outcome {
                Ok(predictions) => {
                    results.push(predictions);
                },
                Err(e) => {
                    proof {
                        assert(draft_asks(requests@).skip(i as int + 1) =~= asks.skip(i as int + 1));
                        assert(drafts_in_turn(
                            calls,
                            states,
                            asks,
                            draft_asks(requests@),
                            known,
                            Err(e),
                        ));
                    }
                    return Err(e);
                },
            }
            i = i + 1;
        }
        proof {
            assert(drafts_in_turn(calls, states, asks, draft_asks(requests@), results@, Ok(results)));
        }
        Ok(results)
    }
}

/// Whether `r` is the chain of drafted tokens, or the error in its place.
pub open spec fn is_chain_of(
    linear: Result<Vec<NextTokenPrediction>, SpeculativeError>,
    r: Result<SpeculativeTree, SpeculativeError>,
) -> bool {
    match linear {
        Ok(l) => if l@.len() > 0 {
            r is Ok && r->Ok_0.nodes@ == chain_nodes(tokens_of(l@))
        } else {
            r is Err && r->Err_0 is Model && r->Err_0.text() == "Draft model returned no tokens"@
        },
        Err(e) => r == Err::<SpeculativeTree, SpeculativeError>(e),
    }
}

/// Whether the draft of request `k` took the model from state `k` to the next
/// one, with this result.
pub open spec fn drafted_at<D>(
    calls: spec_fn(DraftCall<D>) -> bool,
    states: Seq<D>,
    before: Seq<DraftAsk>,
    after: Seq<DraftAsk>,
    k: int,
    r: Result<Vec<NextTokenPrediction>, SpeculativeError>,
) -> bool {
    &&& after[k] == (DraftAsk { fed: after[k].fed, ..before[k] })
    &&& admits(
        calls,
        (DraftCall {
            before: states[k],
            ask: before[k],
            after: states[k + 1],
            fed: after[k].fed,
            answer: r,
        }),
    )
}

/// Whether a batch was drafted one request after the other, through the given
/// states, up to the first error.
pub open spec fn drafts_in_turn<D>(
    calls: spec_fn(DraftCall<D>) -> bool,
    states: Seq<D>,
    before: Seq<DraftAsk>,
    after: Seq<DraftAsk>,
    results: Seq<Vec<NextTokenPrediction>>,
    r: Result<Vec<Vec<NextTokenPrediction>>, SpeculativeError>,
) -> bool {
    let n = results.len();
    &&& after.len() == before.len()
    &&& n <= before.len()
    &&& forall|k: int| 0 <= k < n ==> #[trigger] drafted_at(calls, states, before, after, k, Ok(results[k]))
    &&& match r {
        Ok(all) => all@ == results && n == before.len() && states.len() == n + 1,
        Err(e) => n < before.len() && states.len() == n + 2 && drafted_at(
            calls,
            states,
            before,
            after,
            n as int,
            Err(e),
        ) && after.skip(n as int + 1) == before.skip(n as int + 1),
    }
}

/// Whether a batch was drafted one request after the other.
pub open spec fn drafted_in_turn<D>(
    calls: spec_fn(DraftCall<D>) -> bool,
    before: D,
    asks: Seq<DraftAsk>,
    after: D,
    left: Seq<DraftAsk>,
    r: Result<Vec<Vec<NextTokenPrediction>>, SpeculativeError>,
) -> bool {
    exists|states: Seq<D>, results: Seq<Vec<NextTokenPrediction>>| #[trigger]
        drafts_in_turn(calls, states, asks, left, results, r) && states[0] == before && states.last()
            == after
}

/// Whether a call of `draft_batch` may leave the model and the requests so,
/// with this result.
pub open spec fn drafted_batch<D: DraftModel>(
    before: D,
    asks: Seq<DraftAsk>,
    after: D,
    left: Seq<DraftAsk>,
    r: Result<Vec<Vec<NextTokenPrediction>>, SpeculativeError>,
) -> bool {
    D::drafts_together(before, asks, after, left, r) || drafted_in_turn(
        |call: DraftCall<D>| D::drafts(call),
        before,
        asks,
        after,
        left,
        r,
    )
}

/// Whether binding a slot may leave a draft model so, with this result.
pub open spec fn draft_slot_bound<D: DraftModel>(
    before: D,
    slot: SlotId,
    after: D,
    r: Result<(), SpeculativeError>,
) -> bool {
    D::slot_bound(before, slot, after, r) || left_alone(before, after, r)
}

/// Whether binding a prefix may leave a draft model so, with this result.
pub open spec fn draft_prefix_bound<D: DraftModel>(
    before: D,
    prefix: CacheLookup,
    after: D,
    r: Result<(), SpeculativeError>,
) -> bool {
    D::prefix_bound(before, prefix, after, r) || left_alone(before, after, r)
}

/// Whether switching a draft model to another one may leave it so.
pub open spec fn draft_switched<D: DraftModel>(before: D, name: Seq<char>, after: D) -> bool {
    exists|r: Result<(), SpeculativeError>| #[trigger]
        draft_switched_with(before, name, after, r)
}

/// Whether switching a draft model to another one may leave it so, with this
/// result.
pub open spec fn draft_switched_with<D: DraftModel>(
    before: D,
    name: Seq<char>,
    after: D,
    r: Result<(), SpeculativeError>,
) -> bool {
    D::switched(before, name, after, r) || left_alone(before, after, r)
}

/// The model whose tokens count.
///
/// The spec functions say what an implementation may answer; those that do not
/// give them a body promise nothing.
pub trait TargetModel: Sized {
    /// Whether binding a prefix may leave the model so, with this result.
    open spec fn prefix_bound(
        before: Self,
        prefix: CacheLookup,
        after: Self,
        r: Result<(), SpeculativeError>,
    ) -> bool {
        true
    }

    /// Whether binding a slot may leave the model so, with this result.
    open spec fn slot_bound(
        before: Self,
        slot: SlotId,
        after: Self,
        r: Result<(), SpeculativeError>,
    ) -> bool {
        true
    }

    /// Whether switching to the model called `name` may leave this one so, with
    /// this result.
    open spec fn switched(
        before: Self,
        name: Seq<char>,
        after: Self,
        r: Result<(), SpeculativeError>,
    ) -> bool {
        true
    }

    /// Whether a call of `verify` may come about.
    open spec fn verifies(call: VerifyCall<Self>) -> bool {
        true
    }

    /// Whether a call of `verify_batch` that is more than one verification
    /// after the other may leave the model and the requests so, with this result.
    open spec fn verifies_together(
        before: Self,
        asks: Seq<VerifyAsk>,
        after: Self,
        left: Seq<VerifyAsk>,
        r: Result<Vec<Vec<VerifyStep>>, SpeculativeError>,
    ) -> bool {
        true
    }

    fn bind_prefix_cache(&mut self, prefix: &CacheLookup) -> (r: Result<(), SpeculativeError>)
        ensures
            Self::prefix_bound(*old(self), *prefix, *final(self), r) || left_alone(
                *old(self),
                *final(self),
                r,
            ),
        default_ensures
            left_alone(*old(self), *final(self), r),
    {
        Ok(())
    }

    fn bind_slot(&mut self, slot: SlotId) -> (r: Result<(), SpeculativeError>)
        ensures
            Self::slot_bound(*old(self), slot, *final(self), r) || left_alone(
                *old(self),
                *final(self),
                r,
            ),
        default_ensures
            left_alone(*old(self), *final(self), r),
    {
        Ok(())
    }

    /// Switches to another model of a pool; by default the model stays as it is.
    fn switch_model<P>(&mut self, name: &str, pool: &ModelPool<P>) -> (r: Result<
        (),
        SpeculativeError,
    >)
        ensures
            Self::switched(*old(self), name@, *final(self), r) || left_alone(
                *old(self),
                *final(self),
                r,
            ),
        default_ensures
            left_alone(*old(self), *final(self), r),
    {
        Ok(())
    }

    /// The expected token in place of each drafted one.
    fn verify<M: CfgMatcher>(
        &mut self,
        context: &[TokenId],
        drafted: &[TokenId],
        matcher: Option<&mut M>,
    ) -> (r: Result<Vec<VerifyStep>, SpeculativeError>)
        ensures
            Self::verifies(VerifyCall {
                    before: *old(self),
                    ask: VerifyAsk { context: context@, drafted: drafted@, fed: handed(matcher) },
                    after: *final(self),
                    fed: (if matcher is Some { Some(final(matcher->0).guided()) } else { None }),
                    answer: r,
                }),
    ;

    /// The expected token after each node of a tree; by default only the
    /// leftmost branch is verified, and the other nodes are given token 0.
    fn verify_tree<M: CfgMatcher>(
        &mut self,
        context: &[TokenId],
        tree: &SpeculativeTree,
        matcher: Option<&mut M>,
    ) -> (r: Result<TreeVerifyResult, SpeculativeError>)
        requires
            has_leftmost_branch(tree.nodes@),
        default_ensures
            exists|indices: Seq<usize>, steps: Result<Vec<VerifyStep>, SpeculativeError>|
                is_leftmost_branch(tree.nodes@, 0, indices) && #[trigger] is_spread_of(
                    tree.nodes@.len(),
                    indices,
                    steps,
                    r,
                ) && Self::verifies(VerifyCall {
                        before: *old(self),
                        ask: VerifyAsk {
                            context: context@,
                            drafted: tokens_at(tree.nodes@, indices),
                            fed: handed(matcher),
                        },
                        after: *final(self),
                        fed: (if matcher is Some { Some(final(matcher->0).guided()) } else { None }),
                        answer: steps,
                    }),
    {
        let indices: Vec<usize> = leftmost_branch(tree);
        let mut path: Vec<TokenId> = Vec::with_capacity(indices.len());
        let mut k: usize = 0;
        while k < indices.len()
            invariant
                k <= indices@.len(),
                forall|k: int| 0 <= k < indices@.len() ==> #[trigger] indices@[k] < tree.nodes@.len(),
                path@.len() == k,
                forall|j: int| 0 <= j < k ==> #[trigger] path@[j] == tree.nodes@[indices@[j] as int].token,
            decreases indices@.len() - k,
        {
            path.push(tree.nodes[indices[k]].token);
            k = k + 1;
        }
        assert(path@ =~= tokens_at(tree.nodes@, indices@));
        let steps: Result<Vec<VerifyStep>, SpeculativeError> = self.verify(context, &path, matcher);
        let ghost answer = steps;
        let expected: Result<TreeVerifyResult, SpeculativeError> = match steps {
            Ok(steps) => Ok(spread_expected(tree.nodes.len(), &indices, &steps)),
            Err(e) => Err(e),
        };
        assert(is_spread_of(tree.nodes@.len(), indices@, answer, expected));
        expected
    }

    /// Verifies every request, one result for each; by default one after the
    /// other, until the first error.
    fn verify_batch<M: CfgMatcher>(&mut self, requests: &mut Vec<VerifyRequest<M>>) -> (r: Result<
        Vec<Vec<VerifyStep>>,
        SpeculativeError,
    >)
        ensures
            final(requests)@.len() == old(requests)@.len(),
            r is Ok ==> r->Ok_0@.len() == old(requests)@.len(),
            Self::verifies_together(
                *old(self),
                verify_asks(old(requests)@),
                *final(self),
                verify_asks(final(requests)@),
                r,
            )
                || verified_in_turn(
                |call: VerifyCall<Self>| Self::verifies(call),
                *old(self),
                verify_asks(old(requests)@),
                *final(self),
                verify_asks(final(requests)@),
                r,
            ),
        default_ensures
            verified_in_turn(
                |call: VerifyCall<Self>| Self::verifies(call),
                *old(self),
                verify_asks(old(requests)@),
                *final(self),
                verify_asks(final(requests)@),
                r,
            ),
    {
        let mut results: Vec<Vec<VerifyStep>> = Vec::with_capacity(requests.len());
        let ghost calls = |call: VerifyCall<Self>| Self::verifies(call);
        let ghost before = requests@;
        let ghost asks = verify_asks(before);
        let ghost mut states: Seq<Self> = seq![*self];
        let mut i: usize = 0;
        while i < requests.len()
            invariant
                i <= requests@.len(),
                before == old(requests)@,
                asks == verify_asks(before),
                requests@.len() == before.len(),
                results@.len() == i,
                calls == (|call: VerifyCall<Self>| Self::verifies(call)),
                states.len() == i + 1,
                states[0] == *old(self),
                states[i as int] == *self,
                forall|k: int| i <= k < before.len() ==> requests@[k] == before[k],
                forall|k: int|
                    0 <= k < i ==> #[trigger] verified_at(
                        calls,
                        states,
                        asks,
                        verify_asks(requests@),
                        k,
                        Ok(results@[k]),
                    ),
            decreases requests@.len() - i,
        {
            let ghost so_far = requests@;
            let ghost known = results@;
            let ghost seen = states;
            let request = &mut requests[i];
            let outcome: Result<Vec<VerifyStep>, SpeculativeError> = self.verify(
                &request.context,
                &request.drafted,
                request.matcher.as_mut(),
            );
            proof {
                states = states.push(*self);
                assert(verified_at(calls, states, asks, verify_asks(requests@), i as int, outcome));
                assert forall|k: int| 0 <= k < i implies #[trigger] verified_at(
                    calls,
                    states,
                    asks,
                    verify_asks(requests@),
                    k,
                    Ok(known[k]),
                ) by {
                    assert(verified_at(calls, seen, asks, verify_asks(so_far), k, Ok(known[k])));
                }
            }
            match outcome {
                Ok(steps) => {
                    results.push(steps);
                },
                Err(e) => {
                    proof {
                        assert(verify_asks(requests@).skip(i as int + 1) =~= asks.skip(i as int + 1));
                        assert(verifies_in_turn(
                            calls,
                            states,
                            asks,
                            verify_asks(requests@),
                            known,
                            Err(e),
                        ));
                    }
                    return Err(e);
                },
            }
            i = i + 1;
        }
        proof {
            assert(verifies_in_turn(calls, states, asks, verify_asks(requests@), results@, Ok(results)));
        }
        Ok(results)
    }
}

/// The tokens of some nodes.
pub open spec fn tokens_at(nodes: Seq<TreeNode>, indices: Seq<usize>) -> Seq<TokenId> {
    Seq::new(indices.len(), |k: int| nodes[indices[k] as int].token)
}

/// Whether `r` has the verified steps at the given nodes and zeros elsewhere, or
/// the error in their place.
pub open spec fn is_spread_of(
    len: nat,
    indices: Seq<usize>,
    steps: Result<Vec<VerifyStep>, SpeculativeError>,
    r: Result<TreeVerifyResult, SpeculativeError>,
) -> bool {
    match steps {
        Ok(s) => r is Ok && r->Ok_0.expected@ == spread(
            len,
            indices,
            s@,
            paired(indices.len(), s@.len()),
        ),
        Err(e) => r == Err::<TreeVerifyResult, SpeculativeError>(e),
    }
}

/// Whether the verification of request `k` took the model from state `k` to the
/// next one, with this result.
pub open spec fn verified_at<T>(
    calls: spec_fn(VerifyCall<T>) -> bool,
    states: Seq<T>,
    before: Seq<VerifyAsk>,
    after: Seq<VerifyAsk>,
    k: int,
    r: Result<Vec<VerifyStep>, SpeculativeError>,
) -> bool {
    &&& after[k] == (VerifyAsk { fed: after[k].fed, ..before[k] })
    &&& admits(
        calls,
        (VerifyCall {
            before: states[k],
            ask: before[k],
            after: states[k + 1],
            fed: after[k].fed,
            answer: r,
        }),
    )
}

/// Whether a batch was verified one request after the other, through the given
/// states, up to the first error.
pub open spec fn verifies_in_turn<T>(
    calls: spec_fn(VerifyCall<T>) -> bool,
    states: Seq<T>,
    before: Seq<VerifyAsk>,
    after: Seq<VerifyAsk>,
    results: Seq<Vec<VerifyStep>>,
    r: Result<Vec<Vec<VerifyStep>>, SpeculativeError>,
) -> bool {
    let n = results.len();
    &&& after.len() == before.len()
    &&& n <= before.len()
    &&& forall|k: int| 0 <= k < n ==> #[trigger] verified_at(calls, states, before, after, k, Ok(results[k]))
    &&& match r {
        Ok(all) => all@ == results && n == before.len() && states.len() == n + 1,
        Err(e) => n < before.len() && states.len() == n + 2 && verified_at(
            calls,
            states,
            before,
            after,
            n as int,
            Err(e),
        ) && after.skip(n as int + 1) == before.skip(n as int + 1),
    }
}

/// Whether a batch was verified one request after the other.
pub open spec fn verified_in_turn<T>(
    calls: spec_fn(VerifyCall<T>) -> bool,
    before: T,
    asks: Seq<VerifyAsk>,
    after: T,
    left: Seq<VerifyAsk>,
    r: Result<Vec<Vec<VerifyStep>>, SpeculativeError>,
) -> bool {
    exists|states: Seq<T>, results: Seq<Vec<VerifyStep>>| #[trigger]
        verifies_in_turn(calls, states, asks, left, results, r) && states[0] == before && states.last()
            == after
}

/// Whether a call of `verify_batch` may leave the model and the requests so,
/// with this result.
pub open spec fn verified_batch<T: TargetModel>(
    before: T,
    asks: Seq<VerifyAsk>,
    after: T,
    left: Seq<VerifyAsk>,
    r: Result<Vec<Vec<VerifyStep>>, SpeculativeError>,
) -> bool {
    T::verifies_together(before, asks, after, left, r) || verified_in_turn(
        |call: VerifyCall<T>| T::verifies(call),
        before,
        asks,
        after,
        left,
        r,
    )
}

/// Whether binding a slot may leave a target model so, with this result.
pub open spec fn target_slot_bound<T: TargetModel>(
    before: T,
    slot: SlotId,
    after: T,
    r: Result<(), SpeculativeError>,
) -> bool {
    T::slot_bound(before, slot, after, r) || left_alone(before, after, r)
}

/// Whether binding a prefix may leave a target model so, with this result.
pub open spec fn target_prefix_bound<T: TargetModel>(
    before: T,
    prefix: CacheLookup,
    after: T,
    r: Result<(), SpeculativeError>,
) -> bool {
    T::prefix_bound(before, prefix, after, r) || left_alone(before, after, r)
}

/// Whether switching a target model to another one may leave it so.
pub open spec fn target_switched<T: TargetModel>(before: T, name: Seq<char>, after: T) -> bool {
    exists|r: Result<(), SpeculativeError>| #[trigger]
        target_switched_with(before, name, after, r)
}

/// Whether switching a target model to another one may leave it so, with this
/// result.
pub open spec fn target_switched_with<T: TargetModel>(
    before: T,
    name: Seq<char>,
    after: T,
    r: Result<(), SpeculativeError>,
) -> bool {
    T::switched(before, name, after, r) || left_alone(before, after, r)
}

/// Whether both models may have been told about a request in this way: first its
/// slot, then its cached prefix.
pub open spec fn models_bound<D: DraftModel, T: TargetModel>(
    slot: SlotId,
    prefix: CacheLookup,
    draft0: D,
    target0: T,
    draft1: D,
    target1: T,
) -> bool {
    exists|draft: D, target: T| #[trigger]
        bound_through(slot, prefix, draft0, target0, draft, target, draft1, target1, Ok(()))
}

/// Whether the slot is bound through `draft` and `target`, and binding the
/// prefix ends in `r`.
pub open spec fn bound_through<D: DraftModel, T: TargetModel>(
    slot: SlotId,
    prefix: CacheLookup,
    draft0: D,
    target0: T,
    draft: D,
    target: T,
    draft1: D,
    target1: T,
    r: Result<(), SpeculativeError>,
) -> bool {
    &&& draft_slot_bound(draft0, slot, draft, Ok(()))
    &&& target_slot_bound(target0, slot, target, Ok(()))
    &&& match r {
        Ok(_) => draft_prefix_bound(draft, prefix, draft1, Ok(())) && target_prefix_bound(
            target,
            prefix,
            target1,
            Ok(()),
        ),
        Err(e) => {
            ||| target1 == target && draft_prefix_bound(draft, prefix, draft1, Err(e))
            ||| draft_prefix_bound(draft, prefix, draft1, Ok(())) && target_prefix_bound(
                target,
                prefix,
                target1,
                Err(e),
            )
        },
    }
}

/// Whether one of the models may have refused a request with `e`.
pub open spec fn binding_refused<D: DraftModel, T: TargetModel>(
    slot: SlotId,
    prefix: CacheLookup,
    draft0: D,
    target0: T,
    draft1: D,
    target1: T,
    e: SpeculativeError,
) -> bool {
    ||| target1 == target0 && draft_slot_bound(draft0, slot, draft1, Err(e))
    ||| draft_slot_bound(draft0, slot, draft1, Ok(())) && target_slot_bound(
        target0,
        slot,
        target1,
        Err(e),
    )
    ||| exists|draft: D, target: T| #[trigger]
        bound_through(slot, prefix, draft0, target0, draft, target, draft1, target1, Err(e))
}

/// Tells both models about a request: its slot and its cached prefix.
pub fn bind_models<D: DraftModel, T: TargetModel>(
    draft_model: &mut D,
    target_model: &mut T,
    slot_id: SlotId,
    prefix: &CacheLookup,
) -> (r: Result<(), SpeculativeError>)
    ensures
        r is Ok ==> models_bound(
            slot_id,
            *prefix,
            *old(draft_model),
            *old(target_model),
            *final(draft_model),
            *final(target_model),
        ),
        r is Err ==> binding_refused(
            slot_id,
            *prefix,
            *old(draft_model),
            *old(target_model),
            *final(draft_model),
            *final(target_model),
            r->Err_0,
        ),
{
    let r: Result<(), SpeculativeError> = draft_model.bind_slot(slot_id);
    assert(draft_slot_bound(*old(draft_model), slot_id, *draft_model, r));
    match r {
        Ok(done) => {
            assert(done == ());
        },
        Err(e) => {
            return Err(e);
        },
    }
    let r: Result<(), SpeculativeError> = target_model.bind_slot(slot_id);
    assert(target_slot_bound(*old(target_model), slot_id, *target_model, r));
    match r {
        Ok(done) => {
            assert(done == ());
        },
        Err(e) => {
            return Err(e);
        },
    }
    let ghost draft = *draft_model;
    let ghost target = *target_model;
    let r: Result<(), SpeculativeError> = draft_model.bind_prefix_cache(prefix);
    assert(draft_prefix_bound(draft, *prefix, *draft_model, r));
    match r {
        Ok(done) => {
            assert(done == ());
        },
        Err(e) => {
            assert(bound_through(
                slot_id,
                *prefix,
                *old(draft_model),
                *old(target_model),
                draft,
                target,
                *draft_model,
                *target_model,
                Err(e),
            ));
            return Err(e);
        },
    }
    let r: Result<(), SpeculativeError> = target_model.bind_prefix_cache(prefix);
    assert(target_prefix_bound(target, *prefix, *target_model, r));
    assert(r is Ok ==> r->Ok_0 == ());
    assert(bound_through(
        slot_id,
        *prefix,
        *old(draft_model),
        *old(target_model),
        draft,
        target,
        *draft_model,
        *target_model,
        r,
    ));
    r
}

// ---------------------------------------------------------------------------
// Sessions
// ---------------------------------------------------------------------------

/// Starts sessions with a given draft window.
#[derive(Debug, Clone, Copy, PartialEq, Eq, Structural)]
pub struct SpeculativeDecoder {
    draft_window: usize,
    max_window: usize,
}

/// One sequence in the making.
#[derive(Debug, Clone, PartialEq, Eq)]
pub struct SpeculativeSession {
    draft_window: usize,
    max_window: usize,
    prompt: Vec<TokenId>,
    context: Vec<TokenId>,
    stats: SpeculativeStats,
    rejected_token: Option<TokenId>,
}

/// A session as seen from outside.
pub struct SessionModel {
    pub draft_window: usize,
    pub max_window: usize,
    pub prompt: Seq<TokenId>,
    pub context: Seq<TokenId>,
    pub stats: SpeculativeStats,
    pub rejected: Option<TokenId>,
}

#[derive(Debug, Clone, PartialEq, Eq)]
pub struct SpeculativeOutput {
    pub tokens: Vec<TokenId>,
    pub stats: SpeculativeStats,
}

/// How many drafted tokens agree with the expected ones before the first that
/// does not.
pub open spec fn agreement(drafted: Seq<TokenId>, expected: Seq<TokenId>) -> nat
    decreases drafted.len(),
{
    if drafted.len() == 0 || expected.len() == 0 || drafted[0] != expected[0] {
        0
    } else {
        1 + agreement(drafted.drop_first(), expected.drop_first())
    }
}

/// The token that replaces the first disagreeing one, if there is one.
pub open spec fn correction(drafted: Seq<TokenId>, expected: Seq<TokenId>) -> Option<TokenId> {
    let n = agreement(drafted, expected);
    if n < drafted.len() {
        Some(expected[n as int])
    } else {
        None
    }
}

/// What a round adds to the context: the agreeing tokens and the correction.
pub open spec fn gained(drafted: Seq<TokenId>, expected: Seq<TokenId>) -> Seq<TokenId> {
    let kept = drafted.take(agreement(drafted, expected) as int);
    match correction(drafted, expected) {
        Some(t) => kept.push(t),
        None => kept,
    }
}

/// The draft window after a round: it grows by one, up to its limit, when the
/// whole draft was right, and shrinks to just beyond the agreeing part otherwise.
pub open spec fn adjusted(window: usize, max_window: usize, agreed: nat, drafted: nat) -> usize {
    if agreed == drafted {
        if window < max_window {
            (window + 1) as usize
        } else {
            window
        }
    } else {
        (agreed + 1) as usize
    }
}

/// A session after the target model's answer to a draft was worked in.
pub open spec fn settled(
    s: SessionModel,
    drafted: Seq<TokenId>,
    expected: Seq<TokenId>,
) -> SessionModel {
    let n = agreement(drafted, expected);
    SessionModel {
        draft_window: adjusted(s.draft_window, s.max_window, n, drafted.len()),
        context: s.context + gained(drafted, expected),
        stats: SpeculativeStats {
            accepted_tokens: plus(s.stats.accepted_tokens, n),
            rejected_tokens: plus(s.stats.rejected_tokens, (drafted.len() - n) as nat),
            ..s.stats
        },
        rejected: correction(drafted, expected),
        ..s
    }
}

/// A session that counted a call of the draft model.
pub open spec fn draft_called(s: SessionModel) -> SessionModel {
    SessionModel {
        stats: SpeculativeStats { draft_calls: plus(s.stats.draft_calls, 1), ..s.stats },
        ..s
    }
}

/// A session that counted a call of the target model.
pub open spec fn target_called(s: SessionModel) -> SessionModel {
    SessionModel {
        stats: SpeculativeStats { target_calls: plus(s.stats.target_calls, 1), ..s.stats },
        ..s
    }
}

/// A session that counted `n` drafted tokens.
pub open spec fn draft_counted(s: SessionModel, n: nat) -> SessionModel {
    SessionModel {
        stats: SpeculativeStats { drafted_tokens: plus(s.stats.drafted_tokens, n), ..s.stats },
        ..s
    }
}

/// A session after a draft and the answer to it were committed.
pub open spec fn after_round(
    s: SessionModel,
    drafted: Seq<TokenId>,
    expected: Seq<TokenId>,
) -> SessionModel {
    settled(draft_counted(s, drafted.len()), drafted, expected)
}

/// A session after a full round, in which both models were called.
pub open spec fn played(
    s: SessionModel,
    drafted: Seq<TokenId>,
    expected: Seq<TokenId>,
) -> SessionModel {
    settled(
        target_called(draft_counted(draft_called(s), drafted.len())),
        drafted,
        expected,
    )
}

/// Whether the draft model may answer a question for `requested` tokens so.
pub open spec fn draft_asked<D: DraftModel>(
    before: D,
    context: Seq<TokenId>,
    requested: usize,
    after: D,
    answer: Result<Vec<NextTokenPrediction>, SpeculativeError>,
) -> bool {
    D::drafts(
        DraftCall {
            before,
            ask: DraftAsk { context, max_tokens: requested, fed: None },
            after,
            fed: None,
            answer,
        },
    )
}

/// Whether the target model may answer a draft so.
pub open spec fn verdict_asked<T: TargetModel>(
    before: T,
    context: Seq<TokenId>,
    drafted: Seq<TokenId>,
    after: T,
    answer: Result<Vec<VerifyStep>, SpeculativeError>,
) -> bool {
    T::verifies(
        VerifyCall {
            before,
            ask: VerifyAsk { context, drafted, fed: None },
            after,
            fed: None,
            answer,
        },
    )
}

/// What a round that asks for `requested` tokens makes of the models and of a
/// session, by what the models answer:
/// - the draft model fails: its error, and nothing else changes;
/// - it returns too many tokens: an error that says so;
/// - it returns none: no token is gained;
/// - otherwise the target model is asked, and `answered` says what follows.
pub open spec fn round_outcome<D: DraftModel, T: TargetModel>(
    draft0: D,
    target0: T,
    before: SessionModel,
    requested: usize,
    draft1: D,
    target1: T,
    after: SessionModel,
    r: Result<Vec<TokenId>, SpeculativeError>,
) -> bool {
    exists|p: Result<Vec<NextTokenPrediction>, SpeculativeError>| #[trigger]
        draft_asked(draft0, before.context, requested, draft1, p) && match p {
            Err(e) => target1 == target0 && after == before && r == Err::<
                Vec<TokenId>,
                SpeculativeError,
            >(e),
            Ok(p) => if p@.len() > requested {
                target1 == target0 && after == draft_called(before) && r == Err::<
                    Vec<TokenId>,
                    SpeculativeError,
                >(
                    SpeculativeError::DraftReturnedTooMany {
                        requested,
                        returned: p@.len() as usize,
                    },
                )
            } else if p@.len() == 0 {
                target1 == target0 && after == draft_called(before) && r is Ok && r->Ok_0@.len()
                    == 0
            } else {
                exists|v: Result<Vec<VerifyStep>, SpeculativeError>| #[trigger]
                    verdict_asked(target0, before.context, tokens_of(p@), target1, v) && answered(
                        before,
                        after,
                        tokens_of(p@),
                        v,
                        r,
                    )
            },
        }
}

/// What the target model's answer to `drafted` makes of a session.
pub open spec fn answered(
    before: SessionModel,
    after: SessionModel,
    drafted: Seq<TokenId>,
    verified: Result<Vec<VerifyStep>, SpeculativeError>,
    r: Result<Vec<TokenId>, SpeculativeError>,
) -> bool {
    let asked = draft_counted(draft_called(before), drafted.len());
    match verified {
        Err(e) => after == asked && r == Err::<Vec<TokenId>, SpeculativeError>(e),
        Ok(v) => if v@.len() != drafted.len() {
            after == target_called(asked) && r == Err::<Vec<TokenId>, SpeculativeError>(
                SpeculativeError::TargetReturnedWrongLength {
                    drafted: drafted.len() as usize,
                    returned: v@.len() as usize,
                },
            )
        } else {
            let expected = steps_of(v@);
            &&& after == played(before, drafted, expected)
            &&& r is Ok
            &&& r->Ok_0@ == drafted.take(agreement(drafted, expected) as int)
        },
    }
}

pub proof fn lemma_agreement(drafted: Seq<TokenId>, expected: Seq<TokenId>)
    ensures
        agreement(drafted, expected) <= drafted.len(),
        agreement(drafted, expected) <= expected.len(),
        forall|k: int|
            0 <= k < agreement(drafted, expected) ==> drafted[k] == #[trigger] expected[k],
        agreement(drafted, expected) < drafted.len() && agreement(drafted, expected)
            < expected.len() ==> drafted[agreement(drafted, expected) as int]
            != expected[agreement(drafted, expected) as int],
    decreases drafted.len(),
{
    if drafted.len() > 0 && expected.len() > 0 && drafted[0] == expected[0] {
        let d = drafted.drop_first();
        let e = expected.drop_first();
        lemma_agreement(d, e);
        let n = agreement(drafted, expected);
        assert forall|k: int| 0 <= k < n implies drafted[k] == #[trigger] expected[k] by {
            if k > 0 {
                assert(d[k - 1] == e[k - 1]);
            }
        }
        if n < drafted.len() && n < expected.len() {
            assert(d[n - 1] == drafted[n as int]);
            assert(e[n - 1] == expected[n as int]);
        }
    }
}

pub proof fn lemma_agreement_is(drafted: Seq<TokenId>, expected: Seq<TokenId>, n: nat)
    requires
        n <= drafted.len(),
        n <= expected.len(),
        forall|k: int| 0 <= k < n ==> drafted[k] == #[trigger] expected[k],
        n < drafted.len() && n < expected.len() ==> drafted[n as int] != expected[n as int],
        n < drafted.len() ==> n < expected.len(),
    ensures
        agreement(drafted, expected) == n,
{
    lemma_agreement(drafted, expected);
    let m = agreement(drafted, expected);
    if m < n {
        assert(drafted[m as int] == expected[m as int]);
    } else if n < m {
        assert(drafted[n as int] == expected[n as int]);
    }
}

impl SpeculativeDecoder {
    /// The draft window that sessions start with.
    pub closed spec fn window(&self) -> usize {
        self.draft_window
    }

    /// The limit of the window.
    pub closed spec fn limit(&self) -> usize {
        self.max_window
    }

    /// A session that this decoder starts on `prompt`.
    pub open spec fn fresh(&self, prompt: Seq<TokenId>) -> SessionModel {
        SessionModel {
            draft_window: self.window(),
            max_window: self.limit(),
            prompt,
            context: prompt,
            stats: no_stats(),
            rejected: None,
        }
    }

    pub fn draft_window(&self) -> (n: usize)
        ensures
            n == self.window(),
    {
        self.draft_window
    }

    /// A decoder whose window may double. Twice the window must be a number.
    pub fn new(draft_window: usize) -> (r: Result<Self, SpeculativeError>)
        requires
            draft_window * 2 <= usize::MAX,
        ensures
            draft_window == 0 ==> r == Err::<Self, SpeculativeError>(
                SpeculativeError::EmptyDraftWindow,
            ),
            draft_window > 0 ==> r is Ok && r->Ok_0.window() == draft_window && r->Ok_0.limit()
                == draft_window * 2,
    {
        if draft_window == 0 {
            return Err(SpeculativeError::EmptyDraftWindow);
        }
        Ok(SpeculativeDecoder { draft_window, max_window: draft_window * 2 })
    }

    pub fn with_max_window(draft_window: usize, max_window: usize) -> (r: Result<
        Self,
        SpeculativeError,
    >)
        ensures
            draft_window == 0 || max_window < draft_window ==> r == Err::<Self, SpeculativeError>(
                SpeculativeError::EmptyDraftWindow,
            ),
            0 < draft_window <= max_window ==> r is Ok && r->Ok_0.window() == draft_window
                && r->Ok_0.limit() == max_window,
    {
        if draft_window == 0 || max_window < draft_window {
            return Err(SpeculativeError::EmptyDraftWindow);
        }
        Ok(SpeculativeDecoder { draft_window, max_window })
    }

    /// Starts a session on a prompt. This always succeeds.
    pub fn begin(&self, prompt: &[TokenId]) -> (r: Result<SpeculativeSession, SpeculativeError>)
        ensures
            r is Ok,
            r->Ok_0@ == self.fresh(prompt@),
    {
        Ok(
            SpeculativeSession {
                draft_window: self.draft_window,
                max_window: self.max_window,
                prompt: copied(prompt),
                context: copied(prompt),
                stats: SpeculativeStats::default(),
                rejected_token: None,
            },
        )
    }
}

/// A copy of some tokens.
pub fn copied(tokens: &[TokenId]) -> (v: Vec<TokenId>)
    ensures
        v@ == tokens@,
{
    let mut v: Vec<TokenId> = Vec::with_capacity(tokens.len());
    append_tokens(&mut v, tokens);
    v
}

/// Appends some tokens.
pub fn append_tokens(v: &mut Vec<TokenId>, tokens: &[TokenId])
    ensures
        final(v)@ == old(v)@ + tokens@,
{
    let ghost before = v@;
    let mut i: usize = 0;
    while i < tokens.len()
        invariant
            i <= tokens@.len(),
            v@ == before + tokens@.take(i as int),
        decreases tokens@.len() - i,
    {
        v.push(tokens[i]);
        i = i + 1;
        assert(v@ =~= before + tokens@.take(i as int));
    }
    assert(tokens@.take(i as int) =~= tokens@);
}

/// The tokens of some predictions.
pub fn predicted_tokens(predictions: &Vec<NextTokenPrediction>) -> (tokens: Vec<TokenId>)
    ensures
        tokens@ == tokens_of(predictions@),
{
    let mut tokens: Vec<TokenId> = Vec::with_capacity(predictions.len());
    let mut i: usize = 0;
    while i < predictions.len()
        invariant
            i <= predictions@.len(),
            tokens@ == tokens_of(predictions@).take(i as int),
        decreases predictions@.len() - i,
    {
        tokens.push(predictions[i].token);
        i = i + 1;
        assert(tokens@ =~= tokens_of(predictions@).take(i as int));
    }
    assert(tokens@ =~= tokens_of(predictions@));
    tokens
}

impl View for SpeculativeSession {
    type V = SessionModel;

    closed spec fn view(&self) -> SessionModel {
        SessionModel {
            draft_window: self.draft_window,
            max_window: self.max_window,
            prompt: self.prompt@,
            context: self.context@,
            stats: self.stats,
            rejected: self.rejected_token,
        }
    }
}

impl SpeculativeSession {
    pub fn prompt(&self) -> (p: &[TokenId])
        ensures
            p@ == self@.prompt,
    {
        self.prompt.as_slice()
    }

    pub fn context(&self) -> (c: &[TokenId])
        ensures
            c@ == self@.context,
    {
        self.context.as_slice()
    }

    pub fn stats(&self) -> (s: &SpeculativeStats)
        ensures
            *s == self@.stats,
    {
        &self.stats
    }

    pub fn has_pending_rejection(&self) -> (b: bool)
        ensures
            b == (self@.rejected is Some),
    {
        self.rejected_token.is_some()
    }

    pub fn take_rejected_token(&mut self) -> (t: Option<TokenId>)
        ensures
            t == old(self)@.rejected,
            final(self)@ == (SessionModel { rejected: None, ..old(self)@ }),
    {
        self.rejected_token.take()
    }

    pub fn current_window(&self) -> (n: usize)
        ensures
            n == self@.draft_window,
    {
        self.draft_window
    }

    pub fn record_draft_call(&mut self)
        ensures
            final(self)@ == (SessionModel {
                stats: SpeculativeStats {
                    draft_calls: plus(old(self)@.stats.draft_calls, 1),
                    ..old(self)@.stats
                },
                ..old(self)@
            }),
    {
        self.stats.draft_calls = self.stats.draft_calls.saturating_add(1);
    }

    pub fn record_target_call(&mut self)
        ensures
            final(self)@ == (SessionModel {
                stats: SpeculativeStats {
                    target_calls: plus(old(self)@.stats.target_calls, 1),
                    ..old(self)@.stats
                },
                ..old(self)@
            }),
    {
        self.stats.target_calls = self.stats.target_calls.saturating_add(1);
    }

    fn adjust_window(&mut self, accepted_count: usize, drafted_count: usize)
        requires
            accepted_count <= drafted_count,
        ensures
            final(self)@ == (SessionModel {
                draft_window: adjusted(
                    old(self)@.draft_window,
                    old(self)@.max_window,
                    accepted_count as nat,
                    drafted_count as nat,
                ),
                ..old(self)@
            }),
    {
        if accepted_count == drafted_count {
            if self.draft_window < self.max_window {
                self.draft_window = self.draft_window + 1;
            }
        } else {
            self.draft_window = accepted_count + 1;
        }
    }

    /// Takes over a draft as far as the target model agrees, and the target
    /// model's own token at the first place where it does not. Returns the
    /// agreeing tokens.
    fn settle(&mut self, drafted: &Vec<TokenId>, verified: &[VerifyStep]) -> (accepted: Vec<TokenId>)
        requires
            drafted@.len() == verified@.len(),
        ensures
            final(self)@ == settled(old(self)@, drafted@, steps_of(verified@)),
            accepted@ == drafted@.take(agreement(drafted@, steps_of(verified@)) as int),
    {
        let ghost before = self@;
        let ghost expected = steps_of(verified@);
        let mut n: usize = 0;
        while n < drafted.len() && drafted[n] == verified[n].expected
            invariant
                drafted@.len() == verified@.len(),
                expected == steps_of(verified@),
                n <= drafted@.len(),
                forall|k: int| 0 <= k < n ==> drafted@[k] == #[trigger] expected[k],
            decreases drafted@.len() - n,
        {
            assert(expected[n as int] == verified@[n as int].expected);
            n = n + 1;
        }
        proof {
            if n < drafted@.len() {
                assert(expected[n as int] == verified@[n as int].expected);
            }
            lemma_agreement_is(drafted@, expected, n as nat);
        }
        let mut accepted: Vec<TokenId> = Vec::with_capacity(n);
        let mut k: usize = 0;
        while k < n
            invariant
                k <= n <= drafted@.len(),
                accepted@ == drafted@.take(k as int),
            decreases n - k,
        {
            accepted.push(drafted[k]);
            k = k + 1;
            assert(accepted@ =~= drafted@.take(k as int));
        }
        append_tokens(&mut self.context, &accepted);
        self.stats.accepted_tokens = self.stats.accepted_tokens.saturating_add(n);

        if n < drafted.len() {
            let target_token: TokenId = verified[n].expected;
            self.context.push(target_token);
            self.rejected_token = Some(target_token);
            self.stats.rejected_tokens = self.stats.rejected_tokens.saturating_add(
                drafted.len() - n,
            );
        } else {
            self.rejected_token = None;
        }
        self.adjust_window(n, drafted.len());
        assert(self@.context =~= before.context + gained(drafted@, expected));
        accepted
    }

    /// Settles a draft with the target model's answer. The answer must hold one
    /// step for each drafted token; nothing changes otherwise.
    pub fn commit(&mut self, drafted: &[NextTokenPrediction], verified: &[VerifyStep]) -> (r: Result<
        Vec<TokenId>,
        SpeculativeError,
    >)
        ensures
            verified@.len() != drafted@.len() ==> final(self)@ == old(self)@ && r == Err::<
                Vec<TokenId>,
                SpeculativeError,
            >(
                SpeculativeError::TargetReturnedWrongLength {
                    drafted: drafted@.len() as usize,
                    returned: verified@.len() as usize,
                },
            ),
            verified@.len() == drafted@.len() ==> {
                let d = tokens_of(drafted@);
                let e = steps_of(verified@);
                &&& r is Ok
                &&& r->Ok_0@ == d.take(agreement(d, e) as int)
                &&& final(self)@ == after_round(old(self)@, d, e)
            },
    {
        if verified.len() != drafted.len() {
            return Err(
                SpeculativeError::TargetReturnedWrongLength {
                    drafted: drafted.len(),
                    returned: verified.len(),
                },
            );
        }
        let mut tokens: Vec<TokenId> = Vec::with_capacity(drafted.len());
        let mut i: usize = 0;
        while i < drafted.len()
            invariant
                i <= drafted@.len(),
                tokens@ == tokens_of(drafted@).take(i as int),
            decreases drafted@.len() - i,
        {
            tokens.push(drafted[i].token);
            i = i + 1;
            assert(tokens@ =~= tokens_of(drafted@).take(i as int));
        }
        assert(tokens@ =~= tokens_of(drafted@));
        self.stats.drafted_tokens = self.stats.drafted_tokens.saturating_add(drafted.len());
        Ok(self.settle(&tokens, verified))
    }

    /// One round of drafting and verifying, for at most `max_new_tokens` tokens
    /// and at most the draft window. Returns the drafted tokens that the target
    /// model confirmed; its correction is then pending.
    ///
    /// The models decide what comes back; `round_outcome` says what each answer
    /// makes of the session.
    pub fn draft<D: DraftModel, T: TargetModel>(
        &mut self,
        draft_model: &mut D,
        target_model: &mut T,
        max_new_tokens: usize,
    ) -> (r: Result<Vec<TokenId>, SpeculativeError>)
        ensures
            round_outcome(
                *old(draft_model),
                *old(target_model),
                old(self)@,
                paired(max_new_tokens as nat, old(self)@.draft_window as nat) as usize,
                *final(draft_model),
                *final(target_model),
                final(self)@,
                r,
            ),
    {
        let requested: usize = if max_new_tokens < self.draft_window {
            max_new_tokens
        } else {
            self.draft_window
        };
        let ghost before = self@;
        let proposal: Result<Vec<NextTokenPrediction>, SpeculativeError> = draft_model.draft::<
            LlguidanceMatcher,
        >(&self.context, requested, None);
        assert(draft_asked(
            *old(draft_model),
            before.context,
            requested,
            *draft_model,
            proposal,
        ));
        let predictions: Vec<NextTokenPrediction> = match proposal {
            Ok(p) => p,
            Err(e) => {
                return Err(e);
            },
        };
        self.record_draft_call();

        if predictions.len() > requested {
            return Err(
                SpeculativeError::DraftReturnedTooMany { requested, returned: predictions.len() },
            );
        }
        if predictions.len() == 0 {
            return Ok(Vec::new());
        }
        let drafted: Vec<TokenId> = predicted_tokens(&predictions);
        self.stats.drafted_tokens = self.stats.drafted_tokens.saturating_add(drafted.len());
        let verdict: Result<Vec<VerifyStep>, SpeculativeError> = target_model.verify::<
            LlguidanceMatcher,
        >(&self.context, &drafted, None);
        assert(verdict_asked(
            *old(target_model),
            before.context,
            drafted@,
            *target_model,
            verdict,
        ));
        let verified: Vec<VerifyStep> = match verdict {
            Ok(v) => v,
            Err(e) => {
                return Err(e);
            },
        };
        self.record_target_call();

        if verified.len() != drafted.len() {
            return Err(
                SpeculativeError::TargetReturnedWrongLength {
                    drafted: drafted.len(),
                    returned: verified.len(),
                },
            );
        }
        let accepted: Vec<TokenId> = self.settle(&drafted, &verified);
        assert(self@ == played(before, drafted@, steps_of(verified@)));
        Ok(accepted)
    }
}

/// The session after the rounds `drafts` and `answers`, the correction of each
/// handed on.
pub open spec fn play(
    s: SessionModel,
    drafts: Seq<Seq<TokenId>>,
    answers: Seq<Seq<TokenId>>,
) -> SessionModel
    decreases drafts.len(),
{
    if drafts.len() == 0 {
        s
    } else {
        let before = play(s, drafts.drop_last(), answers.drop_last());
        SessionModel { rejected: None, ..played(before, drafts.last(), answers.last()) }
    }
}

/// Whether the rounds are such that a generation of at most `max` tokens from
/// `s` may consist of them: each draft is not empty, is answered in full, and
/// respects the draft window and the number of tokens still wanted.
pub open spec fn playable(
    s: SessionModel,
    max: nat,
    drafts: Seq<Seq<TokenId>>,
    answers: Seq<Seq<TokenId>>,
) -> bool
    decreases drafts.len(),
{
    &&& drafts.len() == answers.len()
    &&& drafts.len() > 0 ==> {
        let before = play(s, drafts.drop_last(), answers.drop_last());
        &&& playable(s, max, drafts.drop_last(), answers.drop_last())
        &&& 0 < drafts.last().len() == answers.last().len()
        &&& drafts.last().len() <= before.draft_window
        &&& before.context.len() - s.context.len() + drafts.last().len() <= max
    }
}

/// The outcome of a generation: some playable rounds, and the tokens and counts
/// they lead to. It ends when all tokens are there, or after a draft model that
/// had nothing to propose.
pub open spec fn generation(
    s: SessionModel,
    max: nat,
    tokens: Seq<TokenId>,
    stats: SpeculativeStats,
    drafts: Seq<Seq<TokenId>>,
    answers: Seq<Seq<TokenId>>,
) -> bool {
    let end = play(s, drafts, answers);
    &&& playable(s, max, drafts, answers)
    &&& end.context == s.context + tokens
    &&& tokens.len() <= max
    &&& (tokens.len() == max && stats == end.stats) || (tokens.len() < max && stats
        == draft_called(end).stats)
}

/// Whether `tokens` and `stats` are the outcome of some rounds.
pub open spec fn is_generation(
    s: SessionModel,
    max: nat,
    tokens: Seq<TokenId>,
    stats: SpeculativeStats,
) -> bool {
    exists|drafts: Seq<Seq<TokenId>>, answers: Seq<Seq<TokenId>>| #[trigger]
        generation(s, max, tokens, stats, drafts, answers)
}

/// How many tokens the draft model is asked for in a session that started at
/// `s` and wants `max` tokens: as many as are missing, but not more than the
/// draft window.
pub open spec fn next_request(s: SessionModel, max: nat, now: SessionModel) -> usize {
    paired(
        (max - (now.context.len() - s.context.len())) as nat,
        now.draft_window as nat,
    ) as usize
}

/// Whether round `k` is what the models answered, and took each of them from
/// its state `k` to the next one.
pub open spec fn round_asked<D: DraftModel, T: TargetModel>(
    s: SessionModel,
    max: nat,
    drafters: Seq<D>,
    targets: Seq<T>,
    drafts: Seq<Seq<TokenId>>,
    answers: Seq<Seq<TokenId>>,
    k: int,
) -> bool {
    let before = play(s, drafts.take(k), answers.take(k));
    &&& exists|p: Vec<NextTokenPrediction>| #[trigger]
        tokens_of(p@) == drafts[k] && draft_asked(
            drafters[k],
            before.context,
            next_request(s, max, before),
            drafters[k + 1],
            Ok(p),
        )
    &&& exists|v: Vec<VerifyStep>| #[trigger]
        steps_of(v@) == answers[k] && verdict_asked(
            targets[k],
            before.context,
            drafts[k],
            targets[k + 1],
            Ok(v),
        )
}

/// Whether the rounds are playable, and are what the models answered from
/// their first states to their last ones.
pub open spec fn rounds_asked<D: DraftModel, T: TargetModel>(
    s: SessionModel,
    max: nat,
    drafters: Seq<D>,
    targets: Seq<T>,
    drafts: Seq<Seq<TokenId>>,
    answers: Seq<Seq<TokenId>>,
) -> bool {
    &&& playable(s, max, drafts, answers)
    &&& drafters.len() == drafts.len() + 1
    &&& targets.len() == drafts.len() + 1
    &&& forall|k: int|
        0 <= k < drafts.len() ==> #[trigger] round_asked(
            s,
            max,
            drafters,
            targets,
            drafts,
            answers,
            k,
        )
}

/// Whether the given rounds, with the states that the models went through, end
/// in `r`: with all tokens, with a draft model that has nothing to propose, or
/// with the error of one more round.
pub open spec fn ends_in<D: DraftModel, T: TargetModel>(
    s: SessionModel,
    max: nat,
    draft1: D,
    target1: T,
    r: Result<SpeculativeOutput, SpeculativeError>,
    drafters: Seq<D>,
    targets: Seq<T>,
    drafts: Seq<Seq<TokenId>>,
    answers: Seq<Seq<TokenId>>,
) -> bool {
    let end = play(s, drafts, answers);
    let count = end.context.len() - s.context.len();
    &&& rounds_asked(s, max, drafters, targets, drafts, answers)
    &&& match r {
        Ok(out) => {
            &&& end.context == s.context + out.tokens@
            &&& if count == max {
                draft1 == drafters.last() && target1 == targets.last() && out.stats == end.stats
            } else {
                &&& count < max
                &&& target1 == targets.last()
                &&& out.stats == draft_called(end).stats
                &&& exists|p: Vec<NextTokenPrediction>|
                    p@.len() == 0 && #[trigger] draft_asked(
                        drafters.last(),
                        end.context,
                        next_request(s, max, end),
                        draft1,
                        Ok(p),
                    )
            }
        },
        Err(e) => count < max && exists|after: SessionModel| #[trigger]
            round_outcome(
                drafters.last(),
                targets.last(),
                end,
                next_request(s, max, end),
                draft1,
                target1,
                after,
                Err(e),
            ),
    }
}

/// Whether a generation of at most `max` tokens from `s` may take the models
/// from their first states to their last ones and end in `r`.
pub open spec fn generated_by<D: DraftModel, T: TargetModel>(
    s: SessionModel,
    max: nat,
    draft0: D,
    target0: T,
    draft1: D,
    target1: T,
    r: Result<SpeculativeOutput, SpeculativeError>,
) -> bool {
    exists|
        drafters: Seq<D>,
        targets: Seq<T>,
        drafts: Seq<Seq<TokenId>>,
        answers: Seq<Seq<TokenId>>,
    | #[trigger]
        ends_in(s, max, draft1, target1, r, drafters, targets, drafts, answers) && drafters[0]
            == draft0 && targets[0] == target0
}

/// What the models answered in a round that went well: a draft, and unless it
/// is empty the verdict on it.
pub proof fn lemma_round_went_well<D: DraftModel, T: TargetModel>(
    draft0: D,
    target0: T,
    before: SessionModel,
    requested: usize,
    draft1: D,
    target1: T,
    after: SessionModel,
    accepted: Vec<TokenId>,
) -> (found: (Vec<NextTokenPrediction>, Vec<VerifyStep>))
    requires
        round_outcome(draft0, target0, before, requested, draft1, target1, after, Ok(accepted)),
    ensures
        ({
            let d = tokens_of(found.0@);
            let e = steps_of(found.1@);
            &&& draft_asked(draft0, before.context, requested, draft1, Ok(found.0))
            &&& d.len() <= requested
            &&& d.len() == 0 ==> target1 == target0 && after == draft_called(before)
                && accepted@.len() == 0
            &&& d.len() > 0 ==> {
                &&& verdict_asked(target0, before.context, d, target1, Ok(found.1))
                &&& e.len() == d.len()
                &&& after == played(before, d, e)
                &&& accepted@ == d.take(agreement(d, e) as int)
                &&& agreement(d, e) <= d.len()
                &&& gained(d, e).len() <= d.len()
                &&& 0 < gained(d, e).len() == accepted@.len() + (if after.rejected is Some {
                    1int
                } else {
                    0
                })
            }
        }),
{
    let r: Result<Vec<TokenId>, SpeculativeError> = Ok(accepted);
    let p = choose|p: Result<Vec<NextTokenPrediction>, SpeculativeError>| #[trigger]
        draft_asked(draft0, before.context, requested, draft1, p) && match p {
            Err(e) => false,
            Ok(p) => if p@.len() > requested {
                false
            } else if p@.len() == 0 {
                target1 == target0 && after == draft_called(before) && accepted@.len() == 0
            } else {
                exists|v: Result<Vec<VerifyStep>, SpeculativeError>| #[trigger]
                    verdict_asked(target0, before.context, tokens_of(p@), target1, v) && answered(
                        before,
                        after,
                        tokens_of(p@),
                        v,
                        r,
                    )
            },
        };
    let drafted = p->Ok_0;
    let d = tokens_of(drafted@);
    if drafted@.len() == 0 {
        (drafted, arbitrary())
    } else {
        let v = choose|v: Result<Vec<VerifyStep>, SpeculativeError>| #[trigger]
            verdict_asked(target0, before.context, d, target1, v) && answered(
                before,
                after,
                d,
                v,
                r,
            );
        let e = steps_of(v->Ok_0@);
        lemma_gained_len(d, e);
        lemma_agreement(d, e);
        (drafted, v->Ok_0)
    }
}

/// Rounds that the models answered stay so when another one follows.
pub proof fn lemma_more_rounds<D: DraftModel, T: TargetModel>(
    s: SessionModel,
    max: nat,
    drafters: Seq<D>,
    targets: Seq<T>,
    drafts: Seq<Seq<TokenId>>,
    answers: Seq<Seq<TokenId>>,
    drafter: D,
    target: T,
    draft: Vec<NextTokenPrediction>,
    answer: Vec<VerifyStep>,
)
    requires
        rounds_asked(s, max, drafters, targets, drafts, answers),
        ({
            let before = play(s, drafts, answers);
            &&& before.context.len() - s.context.len() + draft@.len() <= max
            &&& 0 < draft@.len() <= before.draft_window
            &&& answer@.len() == draft@.len()
            &&& draft_asked(
                drafters.last(),
                before.context,
                next_request(s, max, before),
                drafter,
                Ok(draft),
            )
            &&& verdict_asked(
                targets.last(),
                before.context,
                tokens_of(draft@),
                target,
                Ok(answer),
            )
        }),
    ensures
        rounds_asked(
            s,
            max,
            drafters.push(drafter),
            targets.push(target),
            drafts.push(tokens_of(draft@)),
            answers.push(steps_of(answer@)),
        ),
{
    let drafters1 = drafters.push(drafter);
    let targets1 = targets.push(target);
    let drafts1 = drafts.push(tokens_of(draft@));
    let answers1 = answers.push(steps_of(answer@));
    let n = drafts.len() as int;
    assert(drafts1.drop_last() =~= drafts);
    assert(answers1.drop_last() =~= answers);
    assert forall|k: int| 0 <= k < drafts1.len() implies #[trigger] round_asked(
        s,
        max,
        drafters1,
        targets1,
        drafts1,
        answers1,
        k,
    ) by {
        assert(drafts1.take(k) =~= drafts.take(k));
        assert(answers1.take(k) =~= answers.take(k));
        if k < n {
            assert(round_asked(s, max, drafters, targets, drafts, answers, k));
        } else {
            assert(drafts.take(n) =~= drafts);
            assert(answers.take(n) =~= answers);
            assert(tokens_of(draft@) == drafts1[k]);
            assert(steps_of(answer@) == answers1[k]);
        }
    }
}

/// A round with a draft gains at least one token, and no more than were drafted.
pub proof fn lemma_gained_len(drafted: Seq<TokenId>, expected: Seq<TokenId>)
    requires
        drafted.len() == expected.len(),
    ensures
        gained(drafted, expected).len() <= drafted.len(),
        drafted.len() > 0 ==> gained(drafted, expected).len() > 0,
        gained(drafted, expected).len() == agreement(drafted, expected) + (if correction(
            drafted,
            expected,
        ) is Some {
            1int
        } else {
            0
        }),
{
    lemma_agreement(drafted, expected);
}

impl SpeculativeDecoder {
    /// Generates up to `max_new_tokens` tokens after `prompt`.
    ///
    /// An error of a model, or a wrong number of tokens or steps from one, ends
    /// the generation with that error.
    pub fn generate<D: DraftModel, T: TargetModel>(
        &self,
        draft_model: &mut D,
        target_model: &mut T,
        prompt: &[TokenId],
        max_new_tokens: usize,
    ) -> (r: Result<SpeculativeOutput, SpeculativeError>)
        ensures
            generated_by(
                self.fresh(prompt@),
                max_new_tokens as nat,
                *old(draft_model),
                *old(target_model),
                *final(draft_model),
                *final(target_model),
                r,
            ),
            r is Ok ==> is_generation(
                self.fresh(prompt@),
                max_new_tokens as nat,
                r->Ok_0.tokens@,
                r->Ok_0.stats,
            ),
            max_new_tokens == 0 ==> r is Ok,
    {
        let mut session: SpeculativeSession = match self.begin(prompt) {
            Ok(s) => s,
            Err(e) => {
                return Err(e);
            },
        };
        let ghost start = session@;
        let ghost max = max_new_tokens as nat;
        let ghost mut drafts: Seq<Seq<TokenId>> = Seq::empty();
        let ghost mut answers: Seq<Seq<TokenId>> = Seq::empty();
        let ghost mut drafters: Seq<D> = seq![*draft_model];
        let ghost mut targets: Seq<T> = seq![*target_model];
        let mut generated: Vec<TokenId> = Vec::with_capacity(max_new_tokens);
        let mut exhausted: bool = false;
        assert(start.context + generated@ =~= start.context);

        while generated.len() < max_new_tokens && !exhausted
            invariant
                start == self.fresh(prompt@),
                max == max_new_tokens,
                generated@.len() <= max_new_tokens,
                rounds_asked(start, max, drafters, targets, drafts, answers),
                drafters[0] == *old(draft_model),
                targets[0] == *old(target_model),
                targets.last() == *target_model,
                play(start, drafts, answers).context == start.context + generated@,
                play(start, drafts, answers).rejected is None,
                !exhausted ==> session@ == play(start, drafts, answers) && drafters.last()
                    == *draft_model,
                exhausted ==> generated@.len() < max_new_tokens && session@ == draft_called(
                    play(start, drafts, answers),
                ) && exists|p: Vec<NextTokenPrediction>|
                    p@.len() == 0 && #[trigger] draft_asked(
                        drafters.last(),
                        play(start, drafts, answers).context,
                        next_request(start, max, play(start, drafts, answers)),
                        *draft_model,
                        Ok(p),
                    ),
            decreases max_new_tokens - generated.len(), (if exhausted { 0int } else { 1int }),
        {
            let remaining: usize = max_new_tokens - generated.len();
            let ghost before = session@;
            let ghost requested = next_request(start, max, before);
            let outcome: Result<Vec<TokenId>, SpeculativeError> = session.draft(
                draft_model,
                target_model,
                remaining,
            );
            assert(round_outcome(
                drafters.last(),
                targets.last(),
                before,
                requested,
                *draft_model,
                *target_model,
                session@,
                outcome,
            ));
            let accepted: Vec<TokenId> = match outcome {
                Ok(a) => a,
                Err(e) => {
                    proof {
                        let r: Result<SpeculativeOutput, SpeculativeError> = Err(e);
                        assert(ends_in(
                            start,
                            max,
                            *draft_model,
                            *target_model,
                            r,
                            drafters,
                            targets,
                            drafts,
                            answers,
                        ));
                    }
                    return Err(e);
                },
            };
            let ghost (drafted, verified) = lemma_round_went_well(
                drafters.last(),
                targets.last(),
                before,
                requested,
                *draft_model,
                *target_model,
                session@,
                accepted,
            );
            let ghost d = tokens_of(drafted@);
            let ghost e = steps_of(verified@);
            if accepted.len() == 0 && !session.has_pending_rejection() {
                assert(drafted@.len() == 0);
                exhausted = true;
            } else {
                assert(drafted@.len() > 0);
                let ghost grown = generated@;
                append_tokens(&mut generated, &accepted);
                match session.take_rejected_token() {
                    Some(token) => {
                        generated.push(token);
                    },
                    None => {},
                }
                proof {
                    assert(generated@ =~= grown + gained(d, e));
                    lemma_more_rounds(
                        start,
                        max,
                        drafters,
                        targets,
                        drafts,
                        answers,
                        *draft_model,
                        *target_model,
                        drafted,
                        verified,
                    );
                    assert(drafts.push(d).drop_last() =~= drafts);
                    assert(answers.push(e).drop_last() =~= answers);
                    drafts = drafts.push(d);
                    answers = answers.push(e);
                    drafters = drafters.push(*draft_model);
                    targets = targets.push(*target_model);
                    assert(play(start, drafts, answers).context =~= start.context + generated@);
                }
            }
        }
        let output = SpeculativeOutput { tokens: generated, stats: *session.stats() };
        assert(ends_in(
            start,
            max,
            *draft_model,
            *target_model,
            Ok(output),
            drafters,
            targets,
            drafts,
            answers,
        ));
        assert(generation(
            self.fresh(prompt@),
            max_new_tokens as nat,
            output.tokens@,
            output.stats,
            drafts,
            answers,
        ));
        Ok(output)
    }
}

// ---------------------------------------------------------------------------
// Laws
// ---------------------------------------------------------------------------

/// Speculation changes nothing but the speed: if the target model's token is a
/// function `next` of the text before it, then every token that a round gains
/// is the one the target model alone would have produced there, whatever was
/// drafted.
pub proof fn round_gains_the_target_models_tokens(
    context: Seq<TokenId>,
    drafted: Seq<TokenId>,
    expected: Seq<TokenId>,
    next: spec_fn(Seq<TokenId>) -> TokenId,
)
    requires
        drafted.len() == expected.len(),
        forall|i: int|
            0 <= i < drafted.len() ==> #[trigger] expected[i] == next(context + drafted.take(i)),
    ensures
        forall|k: int|
            0 <= k < gained(drafted, expected).len() ==> #[trigger] gained(drafted, expected)[k]
                == next(context + gained(drafted, expected).take(k)),
{
    lemma_agreement(drafted, expected);
    let g = gained(drafted, expected);
    assert forall|k: int| 0 <= k < g.len() implies #[trigger] g[k] == next(context + g.take(k)) by {
        assert(g.take(k) =~= drafted.take(k));
        assert(expected[k] == next(context + drafted.take(k)));
        if k < agreement(drafted, expected) {
            assert(drafted[k] == expected[k]);
        }
    }
}

/// Whether a target model of which `holds` is true answers each draft with the
/// tokens of `next`, in place of a drafted token the one that follows the
/// context and the draft before it, and `holds` stays true of it.
pub open spec fn follows<T: TargetModel>(
    holds: spec_fn(T) -> bool,
    next: spec_fn(Seq<TokenId>) -> TokenId,
) -> bool {
    forall|before: T, context: Seq<TokenId>, drafted: Seq<TokenId>, after: T, v: Vec<VerifyStep>|
        #[trigger] verdict_asked(before, context, drafted, after, Ok(v)) && holds(before) ==> {
            &&& holds(after)
            &&& v@.len() == drafted.len() ==> forall|i: int|
                0 <= i < drafted.len() ==> (#[trigger] v@[i]).expected == next(
                    context + drafted.take(i),
                )
        }
}

/// Speculation changes nothing but the speed: if the target model's token is a
/// function `next` of the text before it, then every generated token is the one
/// that the target model alone would have produced there, whatever the draft
/// model proposed.
pub proof fn generation_gives_the_target_models_tokens<D: DraftModel, T: TargetModel>(
    s: SessionModel,
    max: nat,
    draft0: D,
    target0: T,
    draft1: D,
    target1: T,
    out: SpeculativeOutput,
    holds: spec_fn(T) -> bool,
    next: spec_fn(Seq<TokenId>) -> TokenId,
)
    requires
        generated_by(s, max, draft0, target0, draft1, target1, Ok(out)),
        holds(target0),
        follows(holds, next),
    ensures
        forall|k: int|
            0 <= k < out.tokens@.len() ==> #[trigger] out.tokens@[k] == next(
                s.context + out.tokens@.take(k),
            ),
        out.tokens@.len() <= max,
{
    let (drafters, targets, drafts, answers) = choose|
        drafters: Seq<D>,
        targets: Seq<T>,
        drafts: Seq<Seq<TokenId>>,
        answers: Seq<Seq<TokenId>>,
    | #[trigger]
        ends_in(s, max, draft1, target1, Ok(out), drafters, targets, drafts, answers)
            && drafters[0] == draft0 && targets[0] == target0;
    assert(drafts.take(drafts.len() as int) =~= drafts);
    assert(answers.take(drafts.len() as int) =~= answers);
    lemma_rounds_follow(
        s,
        max,
        drafters,
        targets,
        drafts,
        answers,
        drafts.len() as int,
        holds,
        next,
    );
    let end = play(s, drafts, answers);
    let tokens = end.context.skip(s.context.len() as int);
    assert(tokens =~= out.tokens@);
}

proof fn lemma_rounds_follow<D: DraftModel, T: TargetModel>(
    s: SessionModel,
    max: nat,
    drafters: Seq<D>,
    targets: Seq<T>,
    drafts: Seq<Seq<TokenId>>,
    answers: Seq<Seq<TokenId>>,
    n: int,
    holds: spec_fn(T) -> bool,
    next: spec_fn(Seq<TokenId>) -> TokenId,
)
    requires
        rounds_asked(s, max, drafters, targets, drafts, answers),
        holds(targets[0]),
        follows(holds, next),
        0 <= n <= drafts.len(),
    ensures
        holds(targets[n]),
        ({
            let now = play(s, drafts.take(n), answers.take(n));
            let tokens = now.context.skip(s.context.len() as int);
            &&& now.context == s.context + tokens
            &&& playable(s, max, drafts.take(n), answers.take(n))
            &&& forall|k: int|
                0 <= k < tokens.len() ==> #[trigger] tokens[k] == next(s.context + tokens.take(k))
        }),
    decreases drafts.len() + n,
{
    let d = drafts.take(n);
    let a = answers.take(n);
    let now = play(s, d, a);
    let tokens = now.context.skip(s.context.len() as int);
    if n < drafts.len() {
        lemma_prefix_playable(s, max, drafts, answers, n);
    } else {
        assert(d =~= drafts);
        assert(a =~= answers);
    }
    if n == 0 {
        assert(now == s);
        assert(now.context =~= s.context + tokens);
    } else {
        assert(d.drop_last() =~= drafts.take(n - 1));
        assert(a.drop_last() =~= answers.take(n - 1));
        let before = play(s, drafts.take(n - 1), answers.take(n - 1));
        let old_tokens = before.context.skip(s.context.len() as int);
        lemma_rounds_follow(s, max, drafters, targets, drafts, answers, n - 1, holds, next);
        assert(round_asked(s, max, drafters, targets, drafts, answers, n - 1));
        let v = choose|v: Vec<VerifyStep>| #[trigger]
            steps_of(v@) == answers[n - 1] && verdict_asked(
                targets[n - 1],
                before.context,
                drafts[n - 1],
                targets[n - 1 + 1],
                Ok(v),
            );
        let dk = drafts[n - 1];
        let ak = answers[n - 1];
        assert(d.last() == dk && a.last() == ak);
        assert forall|i: int| 0 <= i < dk.len() implies #[trigger] ak[i] == next(
            before.context + dk.take(i),
        ) by {
            assert(ak[i] == v@[i].expected);
        }
        round_gains_the_target_models_tokens(before.context, dk, ak, next);
        let g = gained(dk, ak);
        assert(now.context == before.context + g);
        assert(tokens =~= old_tokens + g);
        assert(now.context =~= s.context + tokens);
        assert forall|k: int| 0 <= k < tokens.len() implies #[trigger] tokens[k] == next(
            s.context + tokens.take(k),
        ) by {
            if k < old_tokens.len() {
                assert(old_tokens[k] == tokens[k]);
                assert(tokens.take(k) =~= old_tokens.take(k));
            } else {
                let j = k - old_tokens.len();
                assert(g[j] == tokens[k]);
                assert(s.context + tokens.take(k) =~= before.context + g.take(j));
            }
        }
    }
}

/// The first rounds of a generation are playable on their own.
pub proof fn lemma_prefix_playable(
    s: SessionModel,
    max: nat,
    drafts: Seq<Seq<TokenId>>,
    answers: Seq<Seq<TokenId>>,
    n: int,
)
    requires
        playable(s, max, drafts, answers),
        0 <= n <= drafts.len(),
    ensures
        playable(s, max, drafts.take(n), answers.take(n)),
    decreases drafts.len(),
{
    if n == drafts.len() {
        assert(drafts.take(n) =~= drafts);
        assert(answers.take(n) =~= answers);
    } else {
        lemma_prefix_playable(s, max, drafts.drop_last(), answers.drop_last(), n);
        assert(drafts.drop_last().take(n) =~= drafts.take(n));
        assert(answers.drop_last().take(n) =~= answers.take(n));
    }
}

/// Every drafted token is either accepted or rejected, and a round that drafted
/// something gains at least one token and at most as many as were drafted.
pub proof fn rounds_make_progress(drafted: Seq<TokenId>, expected: Seq<TokenId>)
    requires
        drafted.len() == expected.len(),
        drafted.len() > 0,
    ensures
        0 < gained(drafted, expected).len() <= drafted.len(),
        agreement(drafted, expected) <= drafted.len(),
{
    lemma_gained_len(drafted, expected);
    lemma_agreement(drafted, expected);
}

/// The draft window never gets empty and never passes its limit.
pub proof fn window_stays_in_bounds(s: SessionModel, drafted: Seq<TokenId>, expected: Seq<TokenId>)
    requires
        0 < s.draft_window <= s.max_window,
        drafted.len() == expected.len(),
        drafted.len() <= s.draft_window,
    ensures
        0 < settled(s, drafted, expected).draft_window <= s.max_window,
{
    lemma_agreement(drafted, expected);
}

/// Over a whole generation the counts add up: as long as no count has reached
/// the largest number, every drafted token was accepted or rejected, the prompt
/// stays as it is, and the draft window stays within its bounds.
pub proof fn generation_accounts_for_every_draft(
    s: SessionModel,
    max: nat,
    drafts: Seq<Seq<TokenId>>,
    answers: Seq<Seq<TokenId>>,
)
    requires
        playable(s, max, drafts, answers),
        s.stats == no_stats(),
        0 < s.draft_window <= s.max_window,
    ensures
        ({
            let end = play(s, drafts, answers);
            &&& end.stats.drafted_tokens < usize::MAX ==> end.stats.drafted_tokens
                == end.stats.accepted_tokens + end.stats.rejected_tokens
            &&& end.stats.draft_calls == end.stats.target_calls
            &&& end.prompt == s.prompt
            &&& end.max_window == s.max_window
            &&& 0 < end.draft_window <= end.max_window
        }),
    decreases drafts.len(),
{
    if drafts.len() > 0 {
        generation_accounts_for_every_draft(s, max, drafts.drop_last(), answers.drop_last());
        let before = play(s, drafts.drop_last(), answers.drop_last());
        lemma_agreement(drafts.last(), answers.last());
        window_stays_in_bounds(before, drafts.last(), answers.last());
    }
}

/// A draft that was right all the way widens the window by one, up to its limit. After
/// any other the next draft is as long as what this one gained.
pub proof fn windows_follow_what_was_gained(
    s: SessionModel,
    drafted: Seq<TokenId>,
    expected: Seq<TokenId>,
)
    requires
        drafted.len() == expected.len(),
        drafted.len() <= s.draft_window <= s.max_window,
    ensures
        ({
            let next = settled(s, drafted, expected);
            &&& drafted == expected ==> next.draft_window == (if s.draft_window < s.max_window {
                s.draft_window + 1
            } else {
                s.max_window as int
            })
            &&& drafted != expected ==> next.draft_window == gained(drafted, expected).len()
            &&& next.max_window == s.max_window
            &&& next.prompt == s.prompt
        }),
{
    lemma_agreement(drafted, expected);
    lemma_gained_len(drafted, expected);
    if drafted == expected {
        lemma_agreement_is(drafted, expected, drafted.len());
    } else if agreement(drafted, expected) == drafted.len() {
        assert(drafted =~= expected);
    }
}

/// What a round accepts are the drafted tokens in front of the first that the target
/// model did not expect; that one and all behind it are rejected, and the target
/// model's own token stands in its place.
pub proof fn rounds_count_what_agrees(
    s: SessionModel,
    drafted: Seq<TokenId>,
    expected: Seq<TokenId>,
    n: nat,
)
    requires
        drafted.len() == expected.len(),
        n <= drafted.len(),
        forall|k: int| 0 <= k < n ==> drafted[k] == #[trigger] expected[k],
        n < drafted.len() ==> drafted[n as int] != expected[n as int],
        s.stats.accepted_tokens + drafted.len() <= usize::MAX,
        s.stats.rejected_tokens + drafted.len() <= usize::MAX,
    ensures
        ({
            let next = settled(s, drafted, expected);
            &&& next.stats.accepted_tokens == s.stats.accepted_tokens + n
            &&& next.stats.rejected_tokens == s.stats.rejected_tokens + (drafted.len() - n)
            &&& n < drafted.len() ==> next.rejected == Some(expected[n as int]) && next.context
                == s.context + expected.take(n as int + 1)
            &&& n == drafted.len() ==> next.rejected is None && next.context == s.context
                + expected
        }),
{
    lemma_agreement_is(drafted, expected, n);
    let next = settled(s, drafted, expected);
    assert(drafted.take(n as int) =~= expected.take(n as int));
    if n < drafted.len() {
        assert(next.context =~= s.context + expected.take(n as int + 1));
    } else {
        assert(expected.take(n as int) =~= expected);
    }
}

proof fn lemma_chain_path(tokens: Seq<TokenId>, i: int, steps: nat)
    requires
        0 <= i < tokens.len() <= usize::MAX,
    ensures
        steps >= i ==> path_within(chain_nodes(tokens), i, steps) is Some,
        path_within(chain_nodes(tokens), i, steps) matches Some(path) ==> path == tokens.take(
            i + 1,
        ),
    decreases i,
{
    let nodes = chain_nodes(tokens);
    if i == 0 {
        assert(seq![nodes[i].token] =~= tokens.take(1));
    } else if steps > 0 {
        lemma_chain_path(tokens, i - 1, (steps - 1) as nat);
        assert(tokens.take(i).push(tokens[i]) =~= tokens.take(i + 1));
    }
}

proof fn lemma_chain_confirmed(tokens: Seq<TokenId>, expected: Seq<TokenId>, i: int)
    requires
        0 <= i < tokens.len() <= usize::MAX,
    ensures
        confirmed(chain_nodes(tokens), expected, i) <==> forall|k: int|
            1 <= k <= i ==> #[trigger] tokens[k] == expected[k - 1],
    decreases i,
{
    if i > 0 {
        lemma_chain_confirmed(tokens, expected, i - 1);
        if confirmed(chain_nodes(tokens), expected, i) {
            assert forall|k: int| 1 <= k <= i implies #[trigger] tokens[k] == expected[k - 1] by {
                if k < i {
                    assert(1 <= k <= i - 1);
                }
            }
        }
    }
}

/// Judging a tree that is one chain is judging its tokens one by one: the path that is
/// kept is the first token and, behind it, every token up to the first that the target
/// model did not expect there.
pub proof fn chains_are_judged_token_by_token(
    tokens: Seq<TokenId>,
    expected: Seq<TokenId>,
    i: int,
)
    requires
        0 < tokens.len() <= usize::MAX,
        expected.len() == tokens.len(),
        best_node(chain_nodes(tokens), expected, tokens.len() as int, i),
    ensures
        i == agreement(tokens.skip(1), expected),
        path_of(chain_nodes(tokens), i) == tokens.take(i + 1),
{
    let nodes = chain_nodes(tokens);
    lemma_chain_confirmed(tokens, expected, i);
    let rest = tokens.skip(1);
    assert forall|k: int| 0 <= k < i implies rest[k] == #[trigger] expected[k] by {
        assert(tokens[k + 1] == expected[k + 1 - 1]);
    }
    lemma_chain_path(tokens, i, i as nat);
    let steps = choose|steps: nat| path_within(nodes, i, steps) is Some;
    lemma_chain_path(tokens, i, steps);
    if i < rest.len() && rest[i] == expected[i] {
        lemma_chain_confirmed(tokens, expected, i + 1);
        assert forall|k: int| 1 <= k <= i + 1 implies #[trigger] tokens[k] == expected[k - 1] by {
            if k == i + 1 {
                assert(tokens[k] == rest[i]);
            }
        }
        let j = i + 1;
        assert(confirmed(nodes, expected, j));
        lemma_chain_path(tokens, j, j as nat);
        let more = choose|steps: nat| path_within(nodes, j, steps) is Some;
        lemma_chain_path(tokens, j, more);
        assert(path_of(nodes, j).len() == i + 2);
        assert(false);
    }
    lemma_agreement_is(rest, expected, i as nat);
}

/// The answers for some nodes stand at these nodes, and everything else is zero.
pub proof fn answers_stand_at_their_nodes(
    len: nat,
    indices: Seq<usize>,
    steps: Seq<VerifyStep>,
    n: nat,
    place: int,
)
    requires
        n <= indices.len(),
        n <= steps.len(),
        0 <= place < len,
        forall|k: int| 0 <= k < n ==> #[trigger] indices[k] < len,
        forall|a: int, b: int|
            0 <= a < b < n ==> #[trigger] indices[a] != #[trigger] indices[b],
    ensures
        spread(len, indices, steps, n).len() == len,
        forall|k: int|
            0 <= k < n && #[trigger] indices[k] == place ==> spread(len, indices, steps, n)[place]
                == steps[k].expected,
        (forall|k: int| 0 <= k < n ==> #[trigger] indices[k] != place) ==> spread(
            len,
            indices,
            steps,
            n,
        )[place] == 0,
    decreases n,
{
    if n > 0 {
        answers_stand_at_their_nodes(len, indices, steps, (n - 1) as nat, place);
        assert(indices[n - 1] < len);
    }
}


/// There is a correction exactly where the draft and the verdict part somewhere, and it is
/// the token of the verdict at the first such place.
pub proof fn the_first_disagreement_is_corrected(
    drafted: Seq<TokenId>,
    expected: Seq<TokenId>,
    i: int,
)
    requires
        drafted.len() == expected.len(),
    ensures
        correction(drafted, expected) is None <==> drafted == expected,
        0 <= i < drafted.len() && drafted[i] != expected[i] && (forall|k: int|
            0 <= k < i ==> drafted[k] == #[trigger] expected[k]) ==> correction(drafted, expected)
            == Some(expected[i]),
{
    lemma_agreement(drafted, expected);
    let n = agreement(drafted, expected);
    if n == drafted.len() {
        assert(drafted =~= expected);
    }
    if 0 <= i < drafted.len() && drafted[i] != expected[i] && (forall|k: int|
        0 <= k < i ==> drafted[k] == #[trigger] expected[k]) {
        if n < i {
            assert(drafted[n as int] == expected[n as int]);
        }
        if i < n {
            assert(drafted[i] == expected[i]);
        }
    }
}
} // verus!
