//! Depth panels: a colour per depth, over a range that leaves outliers out.

use crate::eval::raster::{self, RgbImage};
use crate::float::F32;
use crate::sort;
use vstd::prelude::*;

verus! {

/// The finite values among the first `n`.
pub open spec fn finite_values(v: Seq<F32>, n: int) -> Seq<F32>
    decreases n,
{
    if n <= 0 {
        Seq::empty()
    } else if v[n - 1].finite() {
        finite_values(v, n - 1).push(v[n - 1])
    } else {
        finite_values(v, n - 1)
    }
}

/// The finite values, in order.
pub fn keep_finite(v: &Vec<F32>) -> (r: Vec<F32>)
    ensures
        r@ == finite_values(v@, v@.len() as int),
        r@.len() <= v@.len(),
        forall|i: int| 0 <= i < r@.len() ==> (#[trigger] r@[i]).finite(),
{
    let mut r: Vec<F32> = Vec::new();
    for i in 0..v.len()
        invariant
            r@ == finite_values(v@, i as int),
            r@.len() <= i,
            forall|i: int| 0 <= i < r@.len() ==> (#[trigger] r@[i]).finite(),
    {
        if v[i].is_finite() {
            r.push(v[i]);
        }
    }
    r
}

/// The numeric order of values.
pub open spec fn ranks(v: Seq<F32>) -> Seq<i64> {
    Seq::new(v.len(), |i: int| v[i].rank() as i64)
}

/// `x` is value `k` of `v` by size; equal values keep their order.
pub open spec fn is_kth(v: Seq<F32>, k: int, x: F32) -> bool {
    exists|order: Seq<usize>| #[trigger]
        sort::is_stable_order(ranks(v), order) && 0 <= k < v.len() && x == v[order[k] as int]
}

/// Place of the fifth percentile of `n` values.
pub open spec fn low_place(n: int) -> int {
    n * 5 / 100
}

/// Place of the 95th percentile of `n` values.
pub open spec fn high_place(n: int) -> int {
    if n * 95 / 100 <= n - 1 {
        n * 95 / 100
    } else {
        n - 1
    }
}

/// The fifth and 95th percentile of the finite depths. `None` if there are none.
pub fn depth_range(depth: &Vec<F32>) -> (r: Option<(F32, F32)>)
    ensures
        ({
            let v = finite_values(depth@, depth@.len() as int);
            match r {
                None => v.len() == 0,
                Some((lo, hi)) => v.len() > 0 && is_kth(v, low_place(v.len() as int), lo) && is_kth(
                    v,
                    high_place(v.len() as int),
                    hi,
                ) && lo.spec_le(hi),
            }
        }),
{
    let vals = keep_finite(depth);
    let n: usize = vals.len();
    if n == 0 {
        return None;
    }
    let mut keys: Vec<i64> = Vec::new();
    for i in 0..n
        invariant
            n == vals@.len(),
            keys@ =~= ranks(vals@).take(i as int),
    {
        keys.push(vals[i].to_rank());
    }
    assert(keys@ =~= ranks(vals@));
    let order = sort::stable_order(&keys);
    let lo_at: usize = (n as u128 * 5 / 100) as usize;
    let hi_at: usize = (n as u128 * 95 / 100) as usize;
    let hi_at: usize = if hi_at <= n - 1 {
        hi_at
    } else {
        n - 1
    };
    let lo = vals[order[lo_at]];
    let hi = vals[order[hi_at]];
    proof {
        assert(is_kth(vals@, low_place(n as int), lo));
        assert(is_kth(vals@, high_place(n as int), hi));
        if lo_at < hi_at {
            assert(sort::precedes(keys@, order@[lo_at as int], order@[hi_at as int]));
        }
    }
    Some((lo, hi))
}

/// A panel with a colour for each finite depth, and black elsewhere.
pub fn depth_panel<C: Fn(F32) -> [u8; 3]>(
    depth: &Vec<F32>,
    width: u32,
    height: u32,
    colour: C,
) -> (img: RgbImage)
    requires
        depth@.len() == width * height,
        forall|v: F32| v.finite() ==> #[trigger] colour.requires((v,)),
    ensures
        img.wf(),
        img.width == width,
        img.height == height,
        forall|i: int|
            0 <= i < depth@.len() ==> if depth@[i].finite() {
                colour.ensures((depth@[i],), #[trigger] img.pixels@[i])
            } else {
                img.pixels@[i] == raster::BLACK
            },
{
    let mut pixels: Vec<[u8; 3]> = Vec::new();
    for i in 0..depth.len()
        invariant
            pixels@.len() == i,
            forall|v: F32| v.finite() ==> #[trigger] colour.requires((v,)),
            forall|k: int|
                0 <= k < i ==> if depth@[k].finite() {
                    colour.ensures((depth@[k],), #[trigger] pixels@[k])
                } else {
                    pixels@[k] == raster::BLACK
                },
    {
        let v = depth[i];
        if v.is_finite() {
            pixels.push(colour(v));
        } else {
            pixels.push(raster::BLACK);
        }
    }
    RgbImage { width, height, pixels }
}

/// The finite values are all of them that are finite, in the order that they had, each as often as
/// it occurs.
pub proof fn finite_values_are_kept(v: Seq<F32>, n: int) -> (src: Seq<int>)
    requires
        0 <= n <= v.len(),
    ensures
        src.len() == finite_values(v, n).len(),
        forall|a: int|
            #![trigger src[a]]
            0 <= a < src.len() ==> 0 <= src[a] < n && finite_values(v, n)[a] == v[src[a]],
        forall|a: int, b: int|
            #![trigger src[a], src[b]]
            0 <= a < b < src.len() ==> src[a] < src[b],
        forall|i: int|
            #![trigger v[i]]
            0 <= i < n ==> (src.contains(i) <==> v[i].bits % 0x8000_0000 < 0x7f80_0000),
    decreases n,
{
    if n <= 0 {
        Seq::empty()
    } else {
        let before = finite_values_are_kept(v, n - 1);
        if v[n - 1].finite() {
            let src = before.push(n - 1);
            assert forall|i: int| #![trigger v[i]] 0 <= i < n implies (src.contains(i)
                <==> v[i].bits % 0x8000_0000 < 0x7f80_0000) by {
                if i == n - 1 {
                    assert(src[src.len() - 1] == i);
                } else {
                    if before.contains(i) {
                        assert(src[before.index_of(i)] == i);
                    }
                    if src.contains(i) {
                        assert(before[src.index_of(i)] == i);
                    }
                }
            }
            src
        } else {
            before
        }
    }
}

/// Value `k` by size has `k` values before it that are not above it, and all others are not below
/// it.
pub proof fn kth_values_split_the_others(v: Seq<F32>, k: int, x: F32) -> (order: Seq<usize>)
    requires
        is_kth(v, k, x),
        forall|i: int| 0 <= i < v.len() ==> (#[trigger] v[i]).finite(),
        v.len() <= usize::MAX,
    ensures
        order.len() == v.len(),
        order.no_duplicates(),
        0 <= k < v.len(),
        forall|a: int| #![trigger order[a]] 0 <= a < order.len() ==> order[a] < v.len(),
        x == v[order[k] as int],
        forall|a: int|
            #![trigger order[a]]
            0 <= a <= k ==> v[order[a] as int].rank() <= x.rank(),
        forall|a: int|
            #![trigger order[a]]
            k <= a < v.len() ==> v[order[a] as int].rank() >= x.rank(),
{
    let order = choose|order: Seq<usize>| #[trigger]
        sort::is_stable_order(ranks(v), order) && 0 <= k < v.len() && x == v[order[k] as int];
    assert forall|a: int| #![trigger order[a]] 0 <= a <= k implies v[order[a] as int].rank()
        <= x.rank() by {
        if a < k {
            sort::stable_orders_ascend(ranks(v), order, a, k);
        }
    }
    assert forall|a: int| #![trigger order[a]] k <= a < v.len() implies v[order[a] as int].rank()
        >= x.rank() by {
        if k < a {
            sort::stable_orders_ascend(ranks(v), order, k, a);
        }
    }
    order
}

/// A twentieth of the values are before the lower place, and a twentieth behind the upper one, but
/// for a fraction.
pub proof fn places_leave_out_a_twentieth(n: int)
    requires
        n > 0,
    ensures
        20 * low_place(n) <= n < 20 * low_place(n) + 20,
        20 * (n - high_place(n)) >= n,
        high_place(n) < n - 1 ==> 20 * (n - high_place(n)) < n + 20,
        0 <= low_place(n) <= high_place(n) < n,
{
}

} // verus!
