//! Bounds of a point cloud that leave outliers out.

use crate::float::{self, F32};
use crate::mesh::Vec3;
use crate::render::panel;
use crate::sort;
use vstd::prelude::*;

verus! {

pub const MINUS_ONE_BITS: u32 = 0xBF800000;

pub const ONE_BITS: u32 = 0x3F800000;

/// Coordinate `axis` of each point; a rest that is no whole point is left out.
pub open spec fn axis_values(means: Seq<F32>, axis: int) -> Seq<F32> {
    Seq::new(means.len() / 3, |i: int| means[3 * i + axis])
}

/// The finite coordinates along `axis`.
pub open spec fn finite_axis(means: Seq<F32>, axis: int) -> Seq<F32> {
    panel::finite_values(axis_values(means, axis), (means.len() / 3) as int)
}

/// Sort keys of the total order of `f32`, which tells the two zeros apart.
pub open spec fn total_ranks(v: Seq<F32>) -> Seq<i64> {
    Seq::new(v.len(), |i: int| v[i].total_rank() as i64)
}

/// `x` is value `k` of `v` in the total order.
pub open spec fn is_kth_total(v: Seq<F32>, k: int, x: F32) -> bool {
    exists|order: Seq<usize>| #[trigger]
        sort::is_stable_order(total_ranks(v), order) && 0 <= k < v.len() && x == v[order[k] as int]
}

/// The places of the lower and upper bound among `n` values are places.
pub open spec fn picks_places<P: Fn(usize) -> (usize, usize)>(pick: P) -> bool {
    &&& forall|n: usize| n > 0 ==> #[trigger] pick.requires((n,))
    &&& forall|n: usize, r: (usize, usize)| #[trigger]
        pick.ensures((n,), r) && n > 0 ==> r.0 < n && r.1 < n
}

/// `lo` and `hi` bound the finite values along an axis.
pub open spec fn is_axis_bound<P: Fn(usize) -> (usize, usize)>(
    v: Seq<F32>,
    pick: P,
    lo: F32,
    hi: F32,
) -> bool {
    exists|r: (usize, usize)| #[trigger]
        pick.ensures((v.len() as usize,), r) && is_kth_total(v, r.0 as int, lo) && is_kth_total(
            v,
            r.1 as int,
            hi,
        )
}

fn take_axis(means: &Vec<F32>, axis: usize) -> (r: Vec<F32>)
    requires
        axis < 3,
    ensures
        r@ == finite_axis(means@, axis as int),
        r@.len() <= usize::MAX,
{
    let n: usize = means.len() / 3;
    let mut v: Vec<F32> = Vec::new();
    for i in 0..n
        invariant
            axis < 3,
            n == means@.len() / 3,
            n == means.len() / 3,
            v@ =~= axis_values(means@, axis as int).take(i as int),
    {
        v.push(means[3 * i + axis]);
    }
    assert(v@ =~= axis_values(means@, axis as int));
    panel::keep_finite(&v)
}

fn axis_bound<P: Fn(usize) -> (usize, usize)>(v: &Vec<F32>, pick: &P) -> (r: (F32, F32))
    requires
        v@.len() > 0,
        picks_places(*pick),
    ensures
        is_axis_bound(v@, *pick, r.0, r.1),
{
    let n: usize = v.len();
    let mut keys: Vec<i64> = Vec::new();
    for i in 0..n
        invariant
            n == v@.len(),
            keys@ =~= total_ranks(v@).take(i as int),
    {
        keys.push(v[i].to_total_rank());
    }
    assert(keys@ =~= total_ranks(v@));
    let order = sort::stable_order(&keys);
    let places = pick(n);
    let lo = v[order[places.0]];
    let hi = v[order[places.1]];
    proof {
        assert(is_kth_total(v@, places.0 as int, lo));
        assert(is_kth_total(v@, places.1 as int, hi));
        assert(pick.ensures((n,), places));
    }
    (lo, hi)
}

/// The lower and upper corner of a box around the points. `pick(n)` gives the places of the
/// two bounds among `n` sorted coordinates. Coordinates that are not finite are left out; if
/// an axis has no other, the box is the one from `-1` to `1` on all axes.
pub fn bounds_from_pos<P: Fn(usize) -> (usize, usize)>(pick: P, means: &Vec<F32>) -> (r: (Vec3, Vec3))
    requires
        picks_places(pick),
    ensures
        ({
            let x = finite_axis(means@, 0);
            let y = finite_axis(means@, 1);
            let z = finite_axis(means@, 2);
            if x.len() == 0 || y.len() == 0 || z.len() == 0 {
                let a = F32 { bits: MINUS_ONE_BITS };
                let b = F32 { bits: ONE_BITS };
                r == (Vec3 { x: a, y: a, z: a }, Vec3 { x: b, y: b, z: b })
            } else {
                &&& is_axis_bound(x, pick, r.0.x, r.1.x)
                &&& is_axis_bound(y, pick, r.0.y, r.1.y)
                &&& is_axis_bound(z, pick, r.0.z, r.1.z)
            }
        }),
{
    let x = take_axis(means, 0);
    let y = take_axis(means, 1);
    let z = take_axis(means, 2);
    if x.len() == 0 || y.len() == 0 || z.len() == 0 {
        let a = F32::from_bits(MINUS_ONE_BITS);
        let b = F32::from_bits(ONE_BITS);
        return (Vec3 { x: a, y: a, z: a }, Vec3 { x: b, y: b, z: b });
    }
    let bx = axis_bound(&x, &pick);
    let by = axis_bound(&y, &pick);
    let bz = axis_bound(&z, &pick);
    (Vec3 { x: bx.0, y: by.0, z: bz.0 }, Vec3 { x: bx.1, y: by.1, z: bz.1 })
}

proof fn finite_values_are_finite(v: Seq<F32>, n: int, i: int)
    requires
        0 <= n <= v.len(),
        0 <= i < panel::finite_values(v, n).len(),
    ensures
        panel::finite_values(v, n)[i].finite(),
    decreases n,
{
    if n > 0 {
        let before = panel::finite_values(v, n - 1);
        if i < before.len() {
            finite_values_are_finite(v, n - 1, i);
        }
    }
}

/// Bounds are finite whatever the points are.
pub proof fn bounds_are_finite<P: Fn(usize) -> (usize, usize)>(
    means: Seq<F32>,
    axis: int,
    pick: P,
    lo: F32,
    hi: F32,
)
    requires
        0 <= axis < 3,
        is_axis_bound(finite_axis(means, axis), pick, lo, hi),
    ensures
        lo.finite(),
        hi.finite(),
{
    let v = axis_values(means, axis);
    let f = finite_axis(means, axis);
    let r = choose|r: (usize, usize)| #[trigger]
        pick.ensures((f.len() as usize,), r) && is_kth_total(f, r.0 as int, lo) && is_kth_total(
            f,
            r.1 as int,
            hi,
        );
    let p = choose|order: Seq<usize>| #[trigger]
        sort::is_stable_order(total_ranks(f), order) && 0 <= r.0 < f.len() && lo
            == f[order[r.0 as int] as int];
    let q = choose|order: Seq<usize>| #[trigger]
        sort::is_stable_order(total_ranks(f), order) && 0 <= r.1 < f.len() && hi
            == f[order[r.1 as int] as int];
    finite_values_are_finite(v, (means.len() / 3) as int, p[r.0 as int] as int);
    finite_values_are_finite(v, (means.len() / 3) as int, q[r.1 as int] as int);
}

/// Values at later places of the total order are not smaller.
proof fn places_ascend(v: Seq<F32>, j: int, k: int, x: F32, y: F32)
    requires
        j <= k,
        is_kth_total(v, j, x),
        is_kth_total(v, k, y),
    ensures
        x.total_rank() <= y.total_rank(),
{
    let keys = total_ranks(v);
    let p = choose|order: Seq<usize>| #[trigger]
        sort::is_stable_order(keys, order) && 0 <= j < v.len() && x == v[order[j] as int];
    let q = choose|order: Seq<usize>| #[trigger]
        sort::is_stable_order(keys, order) && 0 <= k < v.len() && y == v[order[k] as int];
    let n = v.len() as int;
    sort::stable_order_is_unique(keys, p, q, n);
    assert(p.take(n)[j] == q.take(n)[j]);
    assert(p[j] == q[j]);
    if j < k {
        assert(sort::precedes(keys, q[j], q[k]));
    }
}

/// The place that `pick` gives for the lower bound of `n` values is not above that of
/// `other`, and the place for the upper bound not below.
pub open spec fn picks_wider<
    P: Fn(usize) -> (usize, usize),
    Q: Fn(usize) -> (usize, usize),
>(pick: P, other: Q, n: usize) -> bool {
    forall|r: (usize, usize), s: (usize, usize)|
        #[trigger] pick.ensures((n,), r) && #[trigger] other.ensures((n,), s) ==> r.0 <= s.0
            && s.1 <= r.1
}

/// Places that are further apart give a box that contains the other one: the bounds along
/// each axis are not inside those of the smaller box.
pub proof fn wider_places_give_a_larger_box<
    P: Fn(usize) -> (usize, usize),
    Q: Fn(usize) -> (usize, usize),
>(
    means: Seq<F32>,
    axis: int,
    pick: P,
    lo: F32,
    hi: F32,
    other: Q,
    inner_lo: F32,
    inner_hi: F32,
)
    requires
        0 <= axis < 3,
        picks_wider(pick, other, finite_axis(means, axis).len() as usize),
        is_axis_bound(finite_axis(means, axis), pick, lo, hi),
        is_axis_bound(finite_axis(means, axis), other, inner_lo, inner_hi),
    ensures
        lo.spec_le(inner_lo),
        inner_hi.spec_le(hi),
{
    let f = finite_axis(means, axis);
    let n = f.len() as usize;
    let r = choose|r: (usize, usize)| #[trigger]
        pick.ensures((n,), r) && is_kth_total(f, r.0 as int, lo) && is_kth_total(
            f,
            r.1 as int,
            hi,
        );
    let s = choose|s: (usize, usize)| #[trigger]
        other.ensures((n,), s) && is_kth_total(f, s.0 as int, inner_lo) && is_kth_total(
            f,
            s.1 as int,
            inner_hi,
        );
    places_ascend(f, r.0 as int, s.0 as int, lo, inner_lo);
    places_ascend(f, s.1 as int, r.1 as int, inner_hi, hi);
    bounds_are_finite(means, axis, pick, lo, hi);
    bounds_are_finite(means, axis, other, inner_lo, inner_hi);
    float::total_rank_refines_le(lo, inner_lo);
    float::total_rank_refines_le(inner_hi, hi);
}

proof fn finite_values_are_few(v: Seq<F32>, n: int)
    requires
        0 <= n <= v.len(),
    ensures
        panel::finite_values(v, n).len() <= n,
    decreases n,
{
    if n > 0 {
        finite_values_are_few(v, n - 1);
    }
}

/// The first and the last place give the smallest and the largest finite coordinate.
pub proof fn outermost_places_hold_every_point<P: Fn(usize) -> (usize, usize)>(
    means: Seq<F32>,
    axis: int,
    pick: P,
    lo: F32,
    hi: F32,
    i: int,
)
    requires
        0 <= axis < 3,
        means.len() <= usize::MAX,
        is_axis_bound(finite_axis(means, axis), pick, lo, hi),
        forall|r: (usize, usize)| #[trigger]
            pick.ensures((finite_axis(means, axis).len() as usize,), r) ==> r.0 == 0 && r.1
                == finite_axis(means, axis).len() - 1,
        0 <= i < finite_axis(means, axis).len(),
    ensures
        lo.spec_le(finite_axis(means, axis)[i]),
        finite_axis(means, axis)[i].spec_le(hi),
        finite_axis(means, axis).contains(lo),
        finite_axis(means, axis).contains(hi),
{
    let f = finite_axis(means, axis);
    let keys = total_ranks(f);
    let p = choose|order: Seq<usize>| #[trigger]
        sort::is_stable_order(keys, order) && 0 <= 0int < f.len() && lo == f[order[0] as int];
    let at = choose|r: (usize, usize)| #[trigger]
        pick.ensures((f.len() as usize,), r) && is_kth_total(f, r.0 as int, lo) && is_kth_total(
            f,
            r.1 as int,
            hi,
        );
    assert(is_kth_total(f, 0, lo));
    assert(is_kth_total(f, f.len() - 1, hi));
    let q = choose|order: Seq<usize>| #[trigger]
        sort::is_stable_order(keys, order) && 0 <= f.len() - 1 < f.len() && hi == f[order[f.len()
            - 1] as int];
    finite_values_are_few(axis_values(means, axis), (means.len() / 3) as int);
    assert(p.contains(i as usize));
    let k = p.index_of(i as usize);
    assert(is_kth_total(f, k, f[i]));
    places_ascend(f, 0, k, lo, f[i]);
    places_ascend(f, k, f.len() - 1, f[i], hi);
    bounds_are_finite(means, axis, pick, lo, hi);
    finite_values_are_finite(axis_values(means, axis), (means.len() / 3) as int, i);
    float::total_rank_refines_le(lo, f[i]);
    float::total_rank_refines_le(f[i], hi);
    assert(f[p[0] as int] == lo);
    assert(f[q[f.len() - 1] as int] == hi);
}

/// Points that are no numbers change nothing: with one more of them at the end, an axis has
/// the same finite coordinates.
pub proof fn points_without_numbers_change_nothing(means: Seq<F32>, p: Seq<F32>, axis: int)
    requires
        means.len() % 3 == 0,
        p.len() == 3,
        0 <= axis < 3,
        !p[axis].finite(),
    ensures
        finite_axis(means + p, axis) == finite_axis(means, axis),
{
    let n = (means.len() / 3) as int;
    let v = axis_values(means, axis);
    let w = axis_values(means + p, axis);
    assert(w.len() == n + 1);
    assert(w[n] == p[axis]);
    assert forall|i: int| 0 <= i < n implies #[trigger] w[i] == v[i] by {
        assert((means + p)[3 * i + axis] == means[3 * i + axis]);
    }
    same_finite_values(v, w, n);
}

proof fn same_finite_values(v: Seq<F32>, w: Seq<F32>, n: int)
    requires
        0 <= n <= v.len(),
        n <= w.len(),
        forall|i: int| 0 <= i < n ==> #[trigger] w[i] == v[i],
    ensures
        panel::finite_values(v, n) == panel::finite_values(w, n),
    decreases n,
{
    if n > 0 {
        assert(w[n - 1] == v[n - 1]);
        same_finite_values(v, w, n - 1);
    }
}

/// The box of the outermost coordinates has every point in it that has a number along the axis, and
/// its sides touch points.
pub proof fn boxes_hold_the_points<P: Fn(usize) -> (usize, usize)>(
    means: Seq<F32>,
    axis: int,
    pick: P,
    lo: F32,
    hi: F32,
    i: int,
)
    requires
        0 <= axis < 3,
        means.len() <= usize::MAX,
        is_axis_bound(finite_axis(means, axis), pick, lo, hi),
        forall|r: (usize, usize)| #[trigger]
            pick.ensures((finite_axis(means, axis).len() as usize,), r) ==> r.0 == 0 && r.1
                == finite_axis(means, axis).len() - 1,
        0 <= i,
        3 * i + 3 <= means.len(),
        means[3 * i + axis].finite(),
    ensures
        lo.spec_le(means[3 * i + axis]),
        means[3 * i + axis].spec_le(hi),
{
    let v = axis_values(means, axis);
    let n = (means.len() / 3) as int;
    let src = panel::finite_values_are_kept(v, n);
    assert(v[i] == means[3 * i + axis]);
    assert(src.contains(i));
    let a = src.index_of(i);
    assert(src[a] == i);
    assert(finite_axis(means, axis)[a] == means[3 * i + axis]);
    outermost_places_hold_every_point(means, axis, pick, lo, hi, a);
}

/// A bound is a coordinate of a point along the axis.
pub proof fn bounds_are_coordinates(means: Seq<F32>, axis: int, k: int, x: F32) -> (i: int)
    requires
        0 <= axis < 3,
        is_kth_total(finite_axis(means, axis), k, x),
    ensures
        0 <= i,
        3 * i + 3 <= means.len(),
        x == means[3 * i + axis],
{
    let f = finite_axis(means, axis);
    let order = choose|order: Seq<usize>| #[trigger]
        sort::is_stable_order(total_ranks(f), order) && 0 <= k < f.len() && x == f[order[k] as int];
    let src = panel::finite_values_are_kept(axis_values(means, axis), (means.len() / 3) as int);
    let a = order[k] as int;
    assert(0 <= a < f.len());
    let i = src[a];
    assert(f[a] == axis_values(means, axis)[i]);
    i
}

} // verus!
