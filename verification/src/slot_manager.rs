//! Slot-based request state management.
//!
//! Maps concurrent requests to fixed "slots" in GPU memory. Each slot
//! provides a stable index into a global page-mapping table, allowing
//! kernels to perform O(1) KV-cache lookups for any request in a batch.

use std::collections::VecDeque;
use vstd::prelude::*;

verus! {

/// A unique identifier for a concurrent request slot.
///
/// These IDs are zero-indexed and correspond to the persistent page-table
/// entries in the GPU memory backend.
#[derive(Debug, Clone, Copy, PartialEq, Eq, Hash, Structural)]
pub struct SlotId(pub u32);

/// Manages a pool of available request slots.
///
/// The view of a pool is the queue of its free slots, the next one to be
/// handed out first.
#[derive(Debug)]
pub struct SlotPool {
    free_slots: VecDeque<u32>,
    max_slots: usize,
}

/// The queue of a pool of `max_slots` slots none of which is in use: every
/// slot number once, in ascending order. Slot numbers are 32 bits wide.
pub open spec fn fresh_slots(max_slots: usize) -> Seq<u32> {
    Seq::new(max_slots as nat, |i: int| (i as usize) as u32)
}

impl View for SlotPool {
    type V = Seq<u32>;

    closed spec fn view(&self) -> Seq<u32> {
        self.free_slots@
    }
}

impl SlotPool {
    /// The number of slots the pool was made with.
    pub closed spec fn max(&self) -> usize {
        self.max_slots
    }

    /// Whether every free slot lies in the range of the pool.
    pub open spec fn in_range(&self) -> bool {
        forall|i: int| 0 <= i < self@.len() ==> (#[trigger] self@[i]) < self.max()
    }

    /// Creates a new pool with a fixed capacity.
    pub fn new(max_slots: usize) -> (pool: Self)
        ensures
            pool@ == fresh_slots(max_slots),
            pool.max() == max_slots,
            pool.in_range(),
    {
        let mut free_slots: VecDeque<u32> = VecDeque::with_capacity(max_slots);
        for i in 0..max_slots
            invariant
                free_slots@ == fresh_slots(i),
        {
            free_slots.push_back(i as u32);
            assert(free_slots@ =~= fresh_slots((i + 1) as usize));
        }
        let pool = SlotPool { free_slots, max_slots };
        assert forall|i: int| 0 <= i < pool@.len() implies (#[trigger] pool@[i]) < pool.max() by {
            let wide = i as usize;
            let slot = wide as u32;
            assert(slot <= wide) by (bit_vector)
                requires
                    slot == wide as u32,
            ;
        }
        pool
    }

    /// Allocates a free slot from the pool. Returns `None` if all slots are occupied.
    ///
    /// The pool follows a FIFO strategy for slot reuse to minimize the chance of
    /// cache pollution across short-lived requests.
    pub fn allocate(&mut self) -> (slot: Option<SlotId>)
        ensures
            final(self).max() == old(self).max(),
            old(self).in_range() ==> final(self).in_range(),
            old(self)@.len() == 0 ==> slot is None && final(self)@ == old(self)@,
            old(self)@.len() > 0 ==> slot == Some(SlotId(old(self)@[0])) && final(self)@
                == old(self)@.drop_first(),
    {
        match self.free_slots.pop_front() {
            Some(id) => {
                assert(self@ =~= old(self)@.drop_first());
                Some(SlotId(id))
            },
            None => None,
        }
    }

    /// Returns a slot to the pool for reuse, behind every slot that is already free.
    ///
    /// The slot must lie in the range of this pool.
    pub fn release(&mut self, slot: SlotId)
        requires
            slot.0 < old(self).max(),
        ensures
            final(self).max() == old(self).max(),
            old(self).in_range() ==> final(self).in_range(),
            final(self)@ == old(self)@.push(slot.0),
    {
        self.free_slots.push_back(slot.0);
        proof {
            if old(self).in_range() {
                assert forall|i: int| 0 <= i < self@.len() implies (#[trigger] self@[i])
                    < self.max() by {
                    if i < old(self)@.len() {
                        assert(self@[i] == old(self)@[i]);
                    }
                }
            }
        }
    }

    /// Whether `slot` may be handed to `release`.
    pub fn is_valid(&self, slot: SlotId) -> (valid: bool)
        ensures
            valid == (slot.0 < self.max()),
    {
        (slot.0 as usize) < self.max_slots
    }

    /// Returns the number of currently available slots.
    pub fn available_slots(&self) -> (n: usize)
        ensures
            n == self@.len(),
    {
        self.free_slots.len()
    }

    /// Returns the total capacity of the pool.
    pub fn capacity(&self) -> (n: usize)
        ensures
            n == self.max(),
    {
        self.max_slots
    }

    /// Returns true if the pool is empty (all slots allocated).
    pub fn is_empty(&self) -> (empty: bool)
        ensures
            empty == (self@.len() == 0),
    {
        self.free_slots.len() == 0
    }
}

/// Isolation of concurrent requests: a pool of at most 2^32 slots starts out
/// with every slot below its capacity exactly once.
pub proof fn fresh_slots_are_distinct(max_slots: usize)
    requires
        max_slots <= 0x1_0000_0000,
    ensures
        fresh_slots(max_slots).no_duplicates(),
        fresh_slots(max_slots).len() == max_slots,
        forall|i: int| 0 <= i < max_slots ==> fresh_slots(max_slots)[i] == i,
{
    assert forall|i: int| 0 <= i < max_slots implies fresh_slots(max_slots)[i] == i by {
        assert(fresh_slots(max_slots)[i] == (i as usize) as u32);
    }
}

/// Isolation of concurrent requests: as long as no slot is free twice, the
/// slot handed out is not free any more, no slot is free twice afterwards, and
/// giving it back restores a pool in which no slot is free twice.
pub proof fn slots_stay_distinct(free: Seq<u32>)
    requires
        free.no_duplicates(),
        free.len() > 0,
    ensures
        !free.drop_first().contains(free[0]),
        free.drop_first().no_duplicates(),
        free.drop_first().push(free[0]).no_duplicates(),
        free.drop_first().push(free[0]).len() == free.len(),
{
    let rest = free.drop_first();
    assert forall|i: int| 0 <= i < rest.len() implies rest[i] != free[0] by {
        assert(rest[i] == free[i + 1]);
    }
}

/// First in, first out: a slot released into a pool with `free` free slots is
/// handed out again after exactly those.
pub proof fn released_slot_waits_its_turn(free: Seq<u32>, slot: u32)
    ensures
        free.push(slot).skip(free.len() as int) == seq![slot],
        free.push(slot).take(free.len() as int) == free,
{
}

} // verus!
