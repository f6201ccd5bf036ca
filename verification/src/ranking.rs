//! Putting values in order, the highest first.

use vstd::prelude::*;

verus! {

/// Whether index `a` comes before index `b`: its key is higher, or the keys are
/// equal and it is the lower index.
pub open spec fn comes_before(keys: Seq<i64>, a: int, b: int) -> bool {
    keys[a] > keys[b] || (keys[a] == keys[b] && a < b)
}

/// Whether `order` lists every index of `keys`, the highest key first, and
/// equal keys in the order in which they stand.
pub open spec fn descending(keys: Seq<i64>, order: Seq<usize>) -> bool {
    &&& order.len() == keys.len()
    &&& forall|i: int| 0 <= i < order.len() ==> #[trigger] order[i] < keys.len()
    &&& forall|i: int, j: int|
        0 <= i < j < order.len() ==> comes_before(
            keys,
            #[trigger] order[i] as int,
            #[trigger] order[j] as int,
        )
}

/// Lists the indices of some keys, the highest key first.
pub fn rank_descending(keys: &[i64]) -> (order: Vec<usize>)
    ensures
        descending(keys@, order@),
{
    let mut order: Vec<usize> = Vec::with_capacity(keys.len());
    let mut n: usize = 0;
    while n < keys.len()
        invariant
            n <= keys@.len(),
            order@.len() == n,
            forall|i: int| 0 <= i < n ==> #[trigger] order@[i] < n,
            forall|i: int, j: int|
                0 <= i < j < n ==> comes_before(
                    keys@,
                    #[trigger] order@[i] as int,
                    #[trigger] order@[j] as int,
                ),
        decreases keys@.len() - n,
    {
        let mut at: usize = n;
        while at > 0 && keys[order[at - 1]] < keys[n]
            invariant
                at <= n < keys@.len(),
                order@.len() == n,
                forall|i: int| 0 <= i < n ==> #[trigger] order@[i] < n,
                forall|i: int| at <= i < n ==> keys@[#[trigger] order@[i] as int] < keys@[n as int],
            decreases at,
        {
            at = at - 1;
        }
        let ghost before = order@;
        order.insert(at, n);
        assert forall|i: int, j: int| 0 <= i < j < n + 1 implies comes_before(
            keys@,
            #[trigger] order@[i] as int,
            #[trigger] order@[j] as int,
        ) by {
            if j < at {
                assert(order@[i] == before[i] && order@[j] == before[j]);
            } else if j == at {
                assert(order@[i] == before[i] && order@[j] == n);
                if i < at - 1 {
                    assert(comes_before(keys@, before[i] as int, before[at - 1] as int));
                }
            } else if i == at {
                assert(order@[j] == before[j - 1] && order@[i] == n);
            } else if i < at {
                assert(order@[i] == before[i] && order@[j] == before[j - 1]);
            } else {
                assert(order@[i] == before[i - 1] && order@[j] == before[j - 1]);
            }
        }
        n = n + 1;
    }
    order
}

/// There is only one such order.
pub proof fn the_order_is_unique(keys: Seq<i64>, a: Seq<usize>, b: Seq<usize>)
    requires
        descending(keys, a),
        descending(keys, b),
    ensures
        a == b,
{
    assert forall|i: int| 0 <= i < a.len() implies a[i] == b[i] by {
        lemma_same_place(keys, a, b, i);
    }
    assert(a =~= b);
}

proof fn lemma_same_place(keys: Seq<i64>, a: Seq<usize>, b: Seq<usize>, i: int)
    requires
        descending(keys, a),
        descending(keys, b),
        0 <= i < a.len(),
    ensures
        a[i] == b[i],
    decreases i,
{
    assert forall|j: int| 0 <= j < i implies #[trigger] a[j] == b[j] by {
        lemma_same_place(keys, a, b, j);
    }
    let p = lemma_listed(keys, b, a[i]);
    let q = lemma_listed(keys, a, b[i]);
    if p < i {
        assert(a[p] == b[p]);
        assert(comes_before(keys, a[p] as int, a[i] as int));
    }
    if q < i {
        assert(a[q] == b[q]);
        assert(comes_before(keys, b[q] as int, b[i] as int));
    }
    if p > i && q > i {
        assert(comes_before(keys, b[i] as int, b[p] as int));
        assert(comes_before(keys, a[i] as int, a[q] as int));
    }
}

/// Every index is listed.
proof fn lemma_listed(keys: Seq<i64>, order: Seq<usize>, x: usize) -> (p: int)
    requires
        descending(keys, order),
        x < keys.len(),
    ensures
        0 <= p < order.len(),
        order[p] == x,
{
    assert(order.no_duplicates()) by {
        assert forall|i: int, j: int| 0 <= i < order.len() && 0 <= j < order.len() && i != j implies
            order[i] != order[j] by {
            if i < j {
                assert(comes_before(keys, order[i] as int, order[j] as int));
            } else {
                assert(comes_before(keys, order[j] as int, order[i] as int));
            }
        }
    }
    let n = keys.len();
    if !order.contains(x) {
        let listed = order.to_set();
        order.unique_seq_to_set();
        let all = vstd::set_lib::set_int_range(0, n as int);
        vstd::set_lib::lemma_int_range(0, n as int);
        let seen = listed.map(|u: usize| u as int);
        vstd::set_lib::lemma_map_size(listed, seen, |u: usize| u as int);
        assert(seen.subset_of(all.remove(x as int))) by {
            assert forall|v: int| seen.contains(v) implies all.remove(x as int).contains(v) by {
                let u = choose|u: usize| listed.contains(u) && u as int == v;
                assert(order.contains(u));
                let k = choose|k: int| 0 <= k < order.len() && order[k] == u;
                assert(order[k] < keys.len());
            }
        }
        vstd::set_lib::lemma_len_subset(seen, all.remove(x as int));
    }
    choose|p: int| 0 <= p < order.len() && order[p] == x
}

} // verus!
