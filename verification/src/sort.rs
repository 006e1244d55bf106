//! Sorting of indices.

use vstd::prelude::*;

verus! {

pub open spec fn pair_le(a: (i64, usize), b: (i64, usize)) -> bool {
    a.0 < b.0 || a.0 == b.0 && a.1 <= b.1
}

/// `<[T]>::sort` on pairs of integers: rearranges the pairs so that they ascend by the first
/// integer, and by the second where the first are equal.
#[verifier::external_body]
fn sort_pairs(v: &mut Vec<(i64, usize)>)
    ensures
        final(v)@.to_multiset() == old(v)@.to_multiset(),
        forall|i: int, j: int|
            #![trigger final(v)@[i], final(v)@[j]]
            0 <= i < j < final(v)@.len() ==> pair_le(final(v)@[i], final(v)@[j]),
{
    v.sort();
}

/// `<[T]>::sort_unstable` on integers: rearranges them so that they ascend.
#[verifier::external_body]
pub(crate) fn sort_ids(v: &mut Vec<usize>)
    ensures
        final(v)@.to_multiset() == old(v)@.to_multiset(),
        forall|i: int, j: int|
            #![trigger final(v)@[i], final(v)@[j]]
            0 <= i < j < final(v)@.len() ==> final(v)@[i] <= final(v)@[j],
{
    v.sort_unstable();
}

/// Index `i` comes before index `j`: its key is smaller, or equal and the index is.
pub open spec fn precedes(keys: Seq<i64>, i: usize, j: usize) -> bool {
    keys[i as int] < keys[j as int] || keys[i as int] == keys[j as int] && i < j
}

/// `order` lists each index of `keys` once, by ascending key; indices with equal keys keep
/// their order.
pub open spec fn is_stable_order(keys: Seq<i64>, order: Seq<usize>) -> bool {
    &&& order.len() == keys.len()
    &&& forall|a: int| 0 <= a < order.len() ==> #[trigger] order[a] < keys.len()
    &&& forall|i: usize| i < keys.len() ==> #[trigger] order.contains(i)
    &&& forall|a: int, b: int|
        #![trigger order[a], order[b]]
        0 <= a < b < order.len() ==> precedes(keys, order[a], order[b])
}

/// There is only one such order.
pub proof fn stable_order_is_unique(keys: Seq<i64>, p: Seq<usize>, q: Seq<usize>, n: int)
    requires
        is_stable_order(keys, p),
        is_stable_order(keys, q),
        0 <= n <= keys.len(),
    ensures
        p.take(n) == q.take(n),
    decreases n,
{
    if n > 0 {
        stable_order_is_unique(keys, p, q, n - 1);
        let (a, b) = (p[n - 1], q[n - 1]);
        assert(p.take(n - 1) == q.take(n - 1));
        if a != b {
            let k = q.index_of(a);
            let m = p.index_of(b);
            assert(q.contains(a) && p.contains(b));
            if k < n - 1 {
                assert(p.take(n - 1)[k] == q.take(n - 1)[k]);
                assert(p[k] == p[n - 1]);
            }
            if m < n - 1 {
                assert(p.take(n - 1)[m] == q.take(n - 1)[m]);
                assert(q[m] == q[n - 1]);
            }
            assert(precedes(keys, q[n - 1], q[k]));
            assert(precedes(keys, p[n - 1], p[m]));
        }
        assert(p.take(n) =~= p.take(n - 1).push(a));
        assert(q.take(n) =~= q.take(n - 1).push(b));
    }
}

/// The indices of `keys`, by ascending key.
pub fn stable_order(keys: &Vec<i64>) -> (order: Vec<usize>)
    ensures
        is_stable_order(keys@, order@),
{
    let mut pairs: Vec<(i64, usize)> = Vec::new();
    for i in 0..keys.len()
        invariant
            pairs@.len() == i,
            forall|k: int| 0 <= k < i ==> #[trigger] pairs@[k] == (keys@[k], k as usize),
    {
        pairs.push((keys[i], i));
    }
    let ghost start = pairs@;
    sort_pairs(&mut pairs);
    let ghost end = pairs@;
    proof {
        start.to_multiset_ensures();
        end.to_multiset_ensures();
        assert(start.no_duplicates());
        start.lemma_multiset_has_no_duplicates();
        end.lemma_multiset_has_no_duplicates_conv();
        assert forall|a: int| 0 <= a < end.len() implies (#[trigger] end[a]).1 < keys@.len()
            && end[a].0 == keys@[end[a].1 as int] by {
            assert(end.contains(end[a]));
            assert(end.to_multiset().count(end[a]) > 0);
            assert(start.contains(end[a]));
            let k = choose|k: int| 0 <= k < start.len() && start[k] == end[a];
            assert(start[k] == (keys@[k], k as usize));
        }
        assert forall|i: usize| i < keys@.len() implies #[trigger] end.contains(
            (keys@[i as int], i),
        ) by {
            assert(start[i as int] == (keys@[i as int], i));
            assert(start.contains((keys@[i as int], i)));
            assert(start.to_multiset().count((keys@[i as int], i)) > 0);
        }
    }
    let mut order: Vec<usize> = Vec::new();
    for a in 0..pairs.len()
        invariant
            pairs@ == end,
            order@.len() == a,
            forall|k: int| 0 <= k < a ==> #[trigger] order@[k] == end[k].1,
    {
        order.push(pairs[a].1);
    }
    proof {
        assert forall|i: usize| i < keys@.len() implies #[trigger] order@.contains(i) by {
            assert(end.contains((keys@[i as int], i)));
            let k = choose|k: int| 0 <= k < end.len() && end[k] == (keys@[i as int], i);
            assert(order@[k] == i);
        }
        assert forall|a: int, b: int|
            #![trigger order@[a], order@[b]]
            0 <= a < b < order@.len() implies precedes(keys@, order@[a], order@[b]) by {
            assert(pair_le(end[a], end[b]));
            assert(end[a] != end[b]);
        }
    }
    order
}

/// A stable order is a rearrangement in which no key comes before a smaller one, and of equal keys
/// the one that stood first comes first.
pub proof fn stable_orders_ascend(keys: Seq<i64>, order: Seq<usize>, a: int, b: int)
    requires
        is_stable_order(keys, order),
        0 <= a < b < order.len(),
    ensures
        order.len() == keys.len(),
        order[a] < keys.len(),
        order[b] < keys.len(),
        order[a] != order[b],
        keys[order[a] as int] <= keys[order[b] as int],
        keys[order[a] as int] == keys[order[b] as int] ==> order[a] < order[b],
{
}

} // verus!
