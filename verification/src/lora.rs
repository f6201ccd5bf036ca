//! Low-Rank Adaptation (LoRA) weight management and dispatch.

use std::collections::HashMap;
use vstd::prelude::*;
use crate::scalar::F32;
use crate::table::Table;

verus! {

/// Unique identifier for a LoRA adapter.
pub type AdapterId = u32;

/// Configuration for a Low-Rank Adaptation (LoRA) adapter.
#[derive(Debug, Clone)]
pub struct LoraConfig {
    /// The rank of the adaptation matrices.
    pub r: usize,
    /// The scaling factor (alpha) applied to the LoRA delta.
    pub alpha: F32,
    /// List of model modules (e.g. "attention.wq") targetted by this adapter.
    pub target_modules: Vec<String>,
}

/// Weights for a specific LoRA adapter, in buffers of some device.
#[verifier::reject_recursive_types(B)]
pub struct LoraWeights<B> {
    /// Map of tensor names to buffers (e.g. "layers.0.attention.wq.lora_A.weight").
    pub weights: Table<B>,
}

/// Registry for managing multiple LoRA adapters in memory.
#[verifier::reject_recursive_types(B)]
pub struct LoraRegistry<B> {
    pub adapters: HashMap<AdapterId, LoraWeights<B>>,
    pub configs: HashMap<AdapterId, LoraConfig>,
}

/// What a map holds for the given numbers.
pub open spec fn kept<V>(all: Map<AdapterId, V>, ids: Seq<AdapterId>) -> Map<AdapterId, V> {
    all.restrict(Set::new(|id: AdapterId| ids.contains(id)))
}

/// Keeps what a map holds for the given numbers.
fn retain<V>(all: HashMap<AdapterId, V>, ids: &[AdapterId]) -> (left: HashMap<AdapterId, V>)
    ensures
        left@ == kept(all@, ids@),
{
    let ghost start = all@;
    let mut all: HashMap<AdapterId, V> = all;
    let mut left: HashMap<AdapterId, V> = HashMap::new();
    let mut i: usize = 0;
    assert(left@ =~= kept(start, ids@.take(0)));
    while i < ids.len()
        invariant
            i <= ids@.len(),
            left@ == kept(start, ids@.take(i as int)),
            forall|id: AdapterId| #[trigger]
                all@.contains_key(id) <==> start.contains_key(id) && !ids@.take(
                    i as int,
                ).contains(id),
            forall|id: AdapterId| #[trigger] all@.contains_key(id) ==> all@[id] == start[id],
        decreases ids@.len() - i,
    {
        let id: AdapterId = ids[i];
        let ghost before = ids@.take(i as int);
        let ghost after = ids@.take(i as int + 1);
        proof {
            assert(after =~= before.push(id));
            assert forall|k: AdapterId| #[trigger]
                after.contains(k) <==> before.contains(k) || k == id by {
                if before.contains(k) {
                    let a = before.index_of(k);
                    assert(after[a] == k);
                }
                if k == id {
                    assert(after[i as int] == id);
                }
                if after.contains(k) && k != id {
                    let a = after.index_of(k);
                    assert(before[a] == k);
                }
            }
        }
        match all.remove(&id) {
            Some(v) => {
                left.insert(id, v);
            },
            None => {},
        }
        i = i + 1;
        assert(left@ =~= kept(start, after));
    }
    assert(ids@.take(i as int) =~= ids@);
    left
}

impl<B> LoraRegistry<B> {
    /// Creates a new, empty LoRA registry.
    pub fn new() -> (r: Self)
        ensures
            r.adapters@ == Map::<AdapterId, LoraWeights<B>>::empty(),
            r.configs@ == Map::<AdapterId, LoraConfig>::empty(),
    {
        LoraRegistry { adapters: HashMap::new(), configs: HashMap::new() }
    }

    /// Adds a new adapter to the registry. One with the same number is replaced.
    pub fn add_adapter(&mut self, id: AdapterId, weights: LoraWeights<B>, config: LoraConfig)
        ensures
            final(self).adapters@ == old(self).adapters@.insert(id, weights),
            final(self).configs@ == old(self).configs@.insert(id, config),
    {
        self.adapters.insert(id, weights);
        self.configs.insert(id, config);
    }

    /// Retrieves the weights for a specific adapter ID.
    pub fn get_weights(&self, id: AdapterId) -> (w: Option<&LoraWeights<B>>)
        ensures
            w is Some <==> self.adapters@.contains_key(id),
            w is Some ==> *w->0 == self.adapters@[id],
    {
        self.adapters.get(&id)
    }

    /// Retrieves the configuration for a specific adapter ID.
    pub fn get_config(&self, id: AdapterId) -> (c: Option<&LoraConfig>)
        ensures
            c is Some <==> self.configs@.contains_key(id),
            c is Some ==> *c->0 == self.configs@[id],
    {
        self.configs.get(&id)
    }

    /// The adapters among `ids` that are not resident, in order: those that
    /// have to be fetched.
    pub fn prefetch(&self, ids: &[AdapterId]) -> (missing: Vec<AdapterId>)
        ensures
            missing@ == ids@.filter(|id: AdapterId| !self.adapters@.contains_key(id)),
    {
        let mut missing: Vec<AdapterId> = Vec::new();
        let ghost absent = |id: AdapterId| !self.adapters@.contains_key(id);
        let mut i: usize = 0;
        while i < ids.len()
            invariant
                i <= ids@.len(),
                absent == (|id: AdapterId| !self.adapters@.contains_key(id)),
                missing@ == ids@.take(i as int).filter(absent),
            decreases ids@.len() - i,
        {
            proof {
                reveal(Seq::filter);
                assert(ids@.take(i + 1).drop_last() =~= ids@.take(i as int));
            }
            if !self.adapters.contains_key(&ids[i]) {
                missing.push(ids[i]);
            }
            i = i + 1;
        }
        assert(ids@.take(i as int) =~= ids@);
        missing
    }

    /// Removes adapters that are not in the provided active list.
    pub fn evict_unused(&mut self, active_ids: &[AdapterId])
        ensures
            final(self).adapters@ == kept(old(self).adapters@, active_ids@),
            final(self).configs@ == kept(old(self).configs@, active_ids@),
    {
        let mut adapters: HashMap<AdapterId, LoraWeights<B>> = HashMap::new();
        std::mem::swap(&mut self.adapters, &mut adapters);
        self.adapters = retain(adapters, active_ids);
        let mut configs: HashMap<AdapterId, LoraConfig> = HashMap::new();
        std::mem::swap(&mut self.configs, &mut configs);
        self.configs = retain(configs, active_ids);
    }
}


/// What is kept is what was there under a number that is asked for, with the value that
/// it had; to keep it again changes nothing.
pub proof fn named_adapters_are_kept<V>(
    all: Map<AdapterId, V>,
    ids: Seq<AdapterId>,
    i: int,
    id: AdapterId,
)
    ensures
        0 <= i < ids.len() && all.contains_key(ids[i]) ==> kept(all, ids).contains_key(ids[i])
            && kept(all, ids)[ids[i]] == all[ids[i]],
        !all.contains_key(id) ==> !kept(all, ids).contains_key(id),
        (forall|k: int| 0 <= k < ids.len() ==> #[trigger] ids[k] != id) ==> !kept(
            all,
            ids,
        ).contains_key(id),
        kept(kept(all, ids), ids) == kept(all, ids),
{
    if 0 <= i < ids.len() {
        assert(ids.contains(ids[i]));
    }
    assert(kept(kept(all, ids), ids) =~= kept(all, ids));
}
} // verus!
