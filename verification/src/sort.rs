//! Stable ordering by an integer key.
use vstd::prelude::*;

verus! {

/// Where `key` goes in `order` so that it comes after everything not larger: the number
/// of leading indices whose keys are not larger than `key`.
pub open spec fn place(order: Seq<int>, keys: Seq<int>, key: int) -> int
    decreases order.len(),
{
    if order.len() == 0 {
        0
    } else if keys[order.last()] <= key {
        order.len() as int
    } else {
        place(order.drop_last(), keys, key)
    }
}

/// The indices of `keys`, smallest key first, and equal keys in the order they came in.
pub open spec fn stable_order(keys: Seq<int>) -> Seq<int>
    decreases keys.len(),
{
    if keys.len() == 0 {
        Seq::empty()
    } else {
        let front = stable_order(keys.drop_last());
        front.insert(place(front, keys, keys.last()), keys.len() - 1)
    }
}

/// The elements of `items` in the order of their keys.
pub open spec fn arranged<T>(items: Seq<T>, keys: Seq<int>) -> Seq<T> {
    let order = stable_order(keys);
    Seq::new(order.len(), |i: int| items[order[i]])
}

/// True when `order` holds each index below `n` exactly once.
pub open spec fn is_permutation(order: Seq<int>, n: int) -> bool {
    &&& order.len() == n
    &&& forall|i: int| 0 <= i < order.len() ==> 0 <= #[trigger] order[i] < n
    &&& order.no_duplicates()
}

/// True when the keys come out from the smallest to the largest, and equal keys by index.
pub open spec fn is_ordered(order: Seq<int>, keys: Seq<int>) -> bool {
    forall|i: int, j: int|
        0 <= i < j < order.len() ==> keys[#[trigger] order[i]] < keys[#[trigger] order[j]] || (
        keys[order[i]] == keys[order[j]] && order[i] < order[j])
}

proof fn lemma_place(order: Seq<int>, keys: Seq<int>, key: int)
    ensures
        0 <= place(order, keys, key) <= order.len(),
        place(order, keys, key) > 0 ==> keys[order[place(order, keys, key) - 1]] <= key,
        forall|i: int|
            place(order, keys, key) <= i < order.len() ==> keys[#[trigger] order[i]] > key,
    decreases order.len(),
{
    if order.len() > 0 && keys[order.last()] > key {
        lemma_place(order.drop_last(), keys, key);
        let p = place(order.drop_last(), keys, key);
        assert forall|i: int| p <= i < order.len() implies keys[#[trigger] order[i]] > key by {
            if i < order.len() - 1 {
                assert(order.drop_last()[i] == order[i]);
            }
        }
    }
}

/// Every index comes out exactly once, the keys come out in order, and equal keys keep the
/// order they came in.
pub proof fn ordering_is_stable(keys: Seq<int>)
    ensures
        is_permutation(stable_order(keys), keys.len() as int),
        is_ordered(stable_order(keys), keys),
    decreases keys.len(),
{
    if keys.len() > 0 {
        let shorter = keys.drop_last();
        let last = keys.len() - 1;
        ordering_is_stable(shorter);
        let front = stable_order(shorter);
        lemma_place(front, keys, keys.last());
        let p = place(front, keys, keys.last());
        let all = front.insert(p, last);
        assert forall|i: int| 0 <= i < all.len() implies 0 <= #[trigger] all[i] < keys.len() by {
            if i < p {
                assert(all[i] == front[i]);
            } else if i > p {
                assert(all[i] == front[i - 1]);
            }
        }
        assert forall|i: int, j: int| 0 <= i < j < all.len() implies (keys[#[trigger] all[i]]
            < keys[#[trigger] all[j]] || (keys[all[i]] == keys[all[j]] && all[i] < all[j]))
            && all[i] != all[j] by {
            let fi = if i < p {
                i
            } else {
                i - 1
            };
            let fj = if j < p {
                j
            } else {
                j - 1
            };
            if i != p {
                assert(all[i] == front[fi]);
                assert(shorter[front[fi]] == keys[front[fi]]);
            }
            if j != p {
                assert(all[j] == front[fj]);
                assert(shorter[front[fj]] == keys[front[fj]]);
            }
            if j == p {
                // Everything before the place has a key that is not larger.
                let before = front[p - 1];
                assert(shorter[before] == keys[before]);
                if i < p - 1 {
                    assert(shorter[front[i]] < shorter[before] || shorter[front[i]]
                        == shorter[before]);
                }
            }
        }
        assert(all.no_duplicates());
    }
}

/// No index is left out.
pub proof fn every_index_has_its_place(keys: Seq<int>, k: int)
    requires
        0 <= k < keys.len(),
    ensures
        stable_order(keys).contains(k),
    decreases keys.len(),
{
    let shorter = keys.drop_last();
    let front = stable_order(shorter);
    lemma_place(front, keys, keys.last());
    let p = place(front, keys, keys.last());
    let all = front.insert(p, keys.len() - 1);
    if k == keys.len() - 1 {
        assert(all[p] == k);
    } else {
        every_index_has_its_place(shorter, k);
        let i = choose|i: int| 0 <= i < front.len() && front[i] == k;
        if i < p {
            assert(all[i] == k);
        } else {
            assert(all[i + 1] == k);
        }
    }
}

/// Keys that are already in order are left as they are.
pub proof fn ordering_keeps_what_is_ordered(keys: Seq<int>)
    requires
        forall|i: int, j: int| 0 <= i < j < keys.len() ==> keys[i] <= keys[j],
    ensures
        stable_order(keys) == Seq::new(keys.len(), |i: int| i),
    decreases keys.len(),
{
    if keys.len() > 0 {
        let shorter = keys.drop_last();
        ordering_keeps_what_is_ordered(shorter);
        let front = stable_order(shorter);
        if front.len() > 0 {
            assert(front.last() == front.len() - 1);
            assert(keys[front.last()] <= keys.last());
        }
        assert(place(front, keys, keys.last()) == front.len());
        assert(stable_order(keys) =~= Seq::new(keys.len(), |i: int| i));
    } else {
        assert(stable_order(keys) =~= Seq::new(keys.len(), |i: int| i));
    }
}

/// The keys as integers.
pub open spec fn key_values(keys: Seq<u64>) -> Seq<int> {
    keys.map_values(|k: u64| k as int)
}

/// The indices of `keys` in stable order.
pub fn order_of(keys: &Vec<u64>) -> (order: Vec<usize>)
    ensures
        order@.map_values(|i: usize| i as int) == stable_order(key_values(keys@)),
        order@.len() == keys@.len(),
        forall|i: int| 0 <= i < order@.len() ==> #[trigger] order@[i] < keys@.len(),
{
    let ghost all = key_values(keys@);
    let mut order: Vec<usize> = Vec::new();
    assert(order@.map_values(|i: usize| i as int) =~= stable_order(all.take(0)));
    for n in 0..keys.len()
        invariant
            all == key_values(keys@),
            order@.len() == n,
            order@.map_values(|i: usize| i as int) == stable_order(all.take(n as int)),
            forall|i: int| 0 <= i < order@.len() ==> #[trigger] order@[i] < n,
    {
        let ghost front = stable_order(all.take(n as int));
        let ghost next = all.take(n + 1);
        let ghost key = all[n as int];
        let mut p: usize = n;
        assert(front.take(n as int) =~= front);
        while p > 0 && keys[order[p - 1]] > keys[n]
            invariant
                all == key_values(keys@),
                p <= n < keys@.len(),
                order@.len() == n,
                front.len() == n,
                forall|i: int| 0 <= i < n ==> front[i] == #[trigger] order@[i],
                forall|i: int| 0 <= i < order@.len() ==> #[trigger] order@[i] < n,
                next == all.take(n + 1),
                key == all[n as int],
                place(front, next, key) == place(front.take(p as int), next, key),
            ensures
                p <= n,
                place(front.take(p as int), next, key) == p,
                place(front, next, key) == place(front.take(p as int), next, key),
            decreases p,
        {
            assert(front.take(p as int).last() == order@[p - 1]);
            assert(next[order@[p - 1] as int] == keys@[order@[p - 1] as int]);
            assert(front.take(p as int).drop_last() =~= front.take(p - 1));
            p = p - 1;
        }
        proof {
            if p > 0 {
                assert(front.take(p as int).last() == order@[p - 1]);
                assert(next[order@[p - 1] as int] == keys@[order@[p - 1] as int]);
            }
            assert(next.drop_last() =~= all.take(n as int));
            assert(next.last() == key);
        }
        order.insert(p, n);
        assert(order@.map_values(|i: usize| i as int) =~= front.insert(p as int, n as int));
    }
    assert(all.take(all.len() as int) =~= all);
    order
}

} // verus!
