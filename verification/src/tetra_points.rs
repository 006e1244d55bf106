//! Seed points of the triangulation: seven per Gaussian, those that some view sees.

use crate::float::F32;
use crate::mesh::Vec3;
use vstd::prelude::*;

verus! {

/// Points of each Gaussian: two along each axis, and its centre.
pub const POINTS_PER_GAUSSIAN: usize = 7;

/// Seed points, each with the extent of its Gaussian.
pub struct TetraPoints {
    pub points: Vec<Vec3>,
    pub scales: Vec<F32>,
}

/// The range of a frustum at a point: its depth lies between the planes, and its pixel within
/// the bounds.
#[derive(Clone, Copy, Debug)]
pub struct FrustumRange {
    pub near: F32,
    pub far: F32,
    pub min_x: F32,
    pub max_x: F32,
    pub min_y: F32,
    pub max_y: F32,
}

/// A point at depth `z` that projects to `(x, y)` is in the frustum.
pub open spec fn is_inside(r: FrustumRange, z: F32, x: F32, y: F32) -> bool {
    &&& r.near.spec_lt(z)
    &&& z.spec_lt(r.far)
    &&& r.min_x.spec_le(x)
    &&& x.spec_le(r.max_x)
    &&& r.min_y.spec_le(y)
    &&& y.spec_le(r.max_y)
}

/// Whether a point at depth `z` that projects to `(x, y)` is in the frustum.
pub fn in_frustum(r: FrustumRange, z: F32, x: F32, y: F32) -> (b: bool)
    ensures
        b == is_inside(r, z, x, y),
{
    r.near.lt(z) && z.lt(r.far) && r.min_x.le(x) && x.le(r.max_x) && r.min_y.le(y) && y.le(r.max_y)
}

/// Whether some view sees a point.
pub fn point_in_any_frustum<T: Fn(usize, Vec3) -> bool>(n_views: usize, p: Vec3, sees: &T) -> (b: bool)
    requires
        forall|v: usize, p: Vec3| v < n_views ==> #[trigger] sees.requires((v, p)),
    ensures
        b ==> exists|v: usize| v < n_views && #[trigger] sees.ensures((v, p), true),
        !b ==> forall|v: usize| v < n_views ==> #[trigger] sees.ensures((v, p), false),
{
    for v in 0..n_views
        invariant
            forall|v: usize, p: Vec3| v < n_views ==> #[trigger] sees.requires((v, p)),
            forall|k: usize| k < v ==> #[trigger] sees.ensures((k, p), false),
    {
        if sees(v, p) {
            assert(sees.ensures((v, p), true));
            return true;
        }
        assert(sees.ensures((v, p), false));
    }
    false
}

/// Some view sees the point.
pub open spec fn is_seen<T: Fn(usize, Vec3) -> bool>(n_views: usize, sees: T, p: Vec3) -> bool {
    exists|v: usize| v < n_views && #[trigger] sees.ensures((v, p), true)
}

/// No view sees the point.
pub open spec fn is_unseen<T: Fn(usize, Vec3) -> bool>(n_views: usize, sees: T, p: Vec3) -> bool {
    forall|v: usize| v < n_views ==> #[trigger] sees.ensures((v, p), false)
}

/// `points` and `scales` are the seeds among the first `n` candidates, in order. Candidate
/// `s` is point `s % 7` of Gaussian `s / 7`.
pub open spec fn are_seeds<
    P: Fn(usize, usize) -> Vec3,
    E: Fn(usize) -> F32,
    T: Fn(usize, Vec3) -> bool,
>(
    point: P,
    extent: E,
    n_views: usize,
    sees: T,
    n: int,
    points: Seq<Vec3>,
    scales: Seq<F32>,
) -> bool
    decreases n,
{
    if n <= 0 {
        points.len() == 0 && scales.len() == 0
    } else {
        ||| is_dropped(point, n_views, sees, n - 1) && are_seeds(
            point,
            extent,
            n_views,
            sees,
            n - 1,
            points,
            scales,
        )
        ||| points.len() > 0 && scales.len() > 0 && is_kept(
            point,
            extent,
            n_views,
            sees,
            n - 1,
            points.last(),
            scales.last(),
        ) && are_seeds(
            point,
            extent,
            n_views,
            sees,
            n - 1,
            points.drop_last(),
            scales.drop_last(),
        )
    }
}

/// Candidate `s` is `p`, and some view sees it; `e` is the extent of its Gaussian.
pub open spec fn is_kept<
    P: Fn(usize, usize) -> Vec3,
    E: Fn(usize) -> F32,
    T: Fn(usize, Vec3) -> bool,
>(point: P, extent: E, n_views: usize, sees: T, s: int, p: Vec3, e: F32) -> bool {
    &&& point.ensures(((s / 7) as usize, (s % 7) as usize), p)
    &&& extent.ensures(((s / 7) as usize,), e)
    &&& is_seen(n_views, sees, p)
}

/// No view sees candidate `s`.
pub open spec fn is_dropped<P: Fn(usize, usize) -> Vec3, T: Fn(usize, Vec3) -> bool>(
    point: P,
    n_views: usize,
    sees: T,
    s: int,
) -> bool {
    exists|p: Vec3| #[trigger]
        point.ensures(((s / 7) as usize, (s % 7) as usize), p) && is_unseen(n_views, sees, p)
}

/// Collect the seed points of `n` Gaussians. `point(i, k)` is point `k` of Gaussian `i`,
/// `extent(i)` its largest extent, and `sees(v, p)` says whether view `v` sees a point.
pub fn build_tetra_points<
    P: Fn(usize, usize) -> Vec3,
    E: Fn(usize) -> F32,
    T: Fn(usize, Vec3) -> bool,
>(n: usize, point: P, extent: E, n_views: usize, sees: T) -> (r: TetraPoints)
    requires
        7 * n <= usize::MAX,
        forall|i: usize, k: usize| i < n && k < 7 ==> #[trigger] point.requires((i, k)),
        forall|i: usize| i < n ==> #[trigger] extent.requires((i,)),
        forall|v: usize, p: Vec3| v < n_views ==> #[trigger] sees.requires((v, p)),
    ensures
        r.points@.len() == r.scales@.len(),
        r.points@.len() <= 7 * n,
        are_seeds(point, extent, n_views, sees, 7 * n, r.points@, r.scales@),
{
    let mut points: Vec<Vec3> = Vec::new();
    let mut scales: Vec<F32> = Vec::new();
    for i in 0..n
        invariant
            7 * n <= usize::MAX,
            forall|i: usize, k: usize| i < n && k < 7 ==> #[trigger] point.requires((i, k)),
            forall|i: usize| i < n ==> #[trigger] extent.requires((i,)),
            forall|v: usize, p: Vec3| v < n_views ==> #[trigger] sees.requires((v, p)),
            points@.len() == scales@.len(),
            points@.len() <= 7 * i,
            are_seeds(point, extent, n_views, sees, 7 * i, points@, scales@),
    {
        let e = extent(i);
        for k in 0..POINTS_PER_GAUSSIAN
            invariant
                i < n,
                7 * n <= usize::MAX,
                extent.ensures((i,), e),
                forall|i: usize, k: usize| i < n && k < 7 ==> #[trigger] point.requires((i, k)),
                forall|v: usize, p: Vec3| v < n_views ==> #[trigger] sees.requires((v, p)),
                points@.len() == scales@.len(),
                points@.len() <= 7 * i + k,
                are_seeds(point, extent, n_views, sees, 7 * i + k, points@, scales@),
        {
            let ghost s = 7 * i + k;
            let ghost p0 = points@;
            let ghost s0 = scales@;
            assert(s / 7 == i && s % 7 == k);
            let p = point(i, k);
            if point_in_any_frustum(n_views, p, &sees) {
                points.push(p);
                scales.push(e);
                proof {
                    assert(points@.drop_last() =~= p0);
                    assert(scales@.drop_last() =~= s0);
                    assert(is_kept(
                        point,
                        extent,
                        n_views,
                        sees,
                        s as int,
                        points@.last(),
                        scales@.last(),
                    ));
                }
            } else {
                assert(is_unseen(n_views, sees, p));
                assert(is_dropped(point, n_views, sees, s as int));
            }
            assert(are_seeds(point, extent, n_views, sees, s + 1, points@, scales@));
        }
    }
    TetraPoints { points, scales }
}

/// The seeds are the candidates that some view sees, in order, each with the extent of the
/// Gaussian that it is a point of. `src` tells which: seed `j` is point `src[j] % 7` of Gaussian
/// `src[j] / 7`, and a candidate that it does not name is seen by no view.
pub proof fn seeds_carry_the_extent_of_their_gaussian<
    P: Fn(usize, usize) -> Vec3,
    E: Fn(usize) -> F32,
    T: Fn(usize, Vec3) -> bool,
>(
    point: P,
    extent: E,
    n_views: usize,
    sees: T,
    n: int,
    points: Seq<Vec3>,
    scales: Seq<F32>,
) -> (src: Seq<int>)
    requires
        0 <= n <= usize::MAX,
        are_seeds(point, extent, n_views, sees, n, points, scales),
    ensures
        src.len() == points.len(),
        points.len() == scales.len(),
        forall|j: int| 0 <= j < src.len() ==> 0 <= #[trigger] src[j] < n,
        forall|i: int, j: int| 0 <= i < j < src.len() ==> src[i] < src[j],
        forall|j: int|
            #![trigger src[j]]
            0 <= j < src.len() ==> {
                let i = (src[j] / 7) as usize;
                let k = (src[j] % 7) as usize;
                &&& i * 7 + k == src[j]
                &&& k < 7
                &&& point.ensures((i, k), points[j])
                &&& extent.ensures((i,), scales[j])
                &&& exists|v: usize| v < n_views && #[trigger] sees.ensures((v, points[j]), true)
            },
        forall|i: usize, k: usize|
            #![trigger is_a_seed(src, i, k)]
            k < 7 && i * 7 + k < n && !is_a_seed(src, i, k) ==> exists|p: Vec3| #[trigger]
                point.ensures((i, k), p) && (forall|v: usize|
                    v < n_views ==> #[trigger] sees.ensures((v, p), false)),
    decreases n,
{
    if n == 0 {
        Seq::empty()
    } else {
        let s = n - 1;
        let (i, k) = ((s / 7) as usize, (s % 7) as usize);
        assert(s / 7 <= s && i * 7 + k == s);
        if is_dropped(point, n_views, sees, s) && are_seeds(
            point,
            extent,
            n_views,
            sees,
            s,
            points,
            scales,
        ) {
            let src = seeds_carry_the_extent_of_their_gaussian(
                point,
                extent,
                n_views,
                sees,
                s,
                points,
                scales,
            );
            assert forall|a: usize, b: usize|
                #![trigger is_a_seed(src, a, b)]
                b < 7 && a * 7 + b < n && !is_a_seed(src, a, b) implies exists|p: Vec3| #[trigger]
                point.ensures((a, b), p) && (forall|v: usize|
                    v < n_views ==> #[trigger] sees.ensures((v, p), false)) by {
                if a * 7 + b == s {
                    assert(a == i && b == k);
                    let p = choose|p: Vec3| #[trigger]
                        point.ensures((i, k), p) && is_unseen(n_views, sees, p);
                    assert(point.ensures((a, b), p));
                }
            }
            src
        } else {
            let (p0, s0) = (points.drop_last(), scales.drop_last());
            let before = seeds_carry_the_extent_of_their_gaussian(
                point,
                extent,
                n_views,
                sees,
                s,
                p0,
                s0,
            );
            let src = before.push(s);
            let last = points.len() - 1;
            assert(points[last] == points.last() && scales[last] == scales.last());
            assert forall|j: int| #![trigger src[j]] 0 <= j < last implies src[j] == before[j]
                && points[j] == p0[j] && scales[j] == s0[j] by {}
            assert forall|a: usize, b: usize|
                #![trigger is_a_seed(src, a, b)]
                b < 7 && a * 7 + b < n && !is_a_seed(src, a, b) implies exists|p: Vec3| #[trigger]
                point.ensures((a, b), p) && (forall|v: usize|
                    v < n_views ==> #[trigger] sees.ensures((v, p), false)) by {
                if a * 7 + b == s {
                    assert(src[last] == a * 7 + b);
                }
                if is_a_seed(before, a, b) {
                    let j = before.index_of(a * 7 + b);
                    assert(src[j] == a * 7 + b);
                }
                assert(!is_a_seed(before, a, b));
            }
            src
        }
    }
}

/// Point `k` of Gaussian `i` is among the candidates of `src`.
pub open spec fn is_a_seed(src: Seq<int>, i: usize, k: usize) -> bool {
    src.contains(i * 7 + k)
}

/// Where every view sees every point, all seven points of each Gaussian are seeds, with its extent.
pub proof fn seeds_in_full_view<
    P: Fn(usize, usize) -> Vec3,
    E: Fn(usize) -> F32,
    T: Fn(usize, Vec3) -> bool,
>(
    point: P,
    extent: E,
    n_views: usize,
    sees: T,
    n: int,
    points: Seq<Vec3>,
    scales: Seq<F32>,
)
    requires
        0 <= n <= usize::MAX,
        n_views > 0,
        forall|v: usize, p: Vec3| !(#[trigger] sees.ensures((v, p), false)),
        are_seeds(point, extent, n_views, sees, n, points, scales),
    ensures
        points.len() == n,
        scales.len() == n,
        forall|s: int|
            #![trigger points[s]]
            #![trigger scales[s]]
            0 <= s < n ==> point.ensures(((s / 7) as usize, (s % 7) as usize), points[s])
                && extent.ensures(((s / 7) as usize,), scales[s]),
    decreases n,
{
    if n > 0 {
        assert(!is_dropped(point, n_views, sees, n - 1)) by {
            if is_dropped(point, n_views, sees, n - 1) {
                let p = choose|p: Vec3| #[trigger]
                    point.ensures((((n - 1) / 7) as usize, ((n - 1) % 7) as usize), p)
                        && is_unseen(n_views, sees, p);
                assert(sees.ensures((0usize, p), false));
            }
        }
        let (p0, s0) = (points.drop_last(), scales.drop_last());
        seeds_in_full_view(point, extent, n_views, sees, n - 1, p0, s0);
        assert forall|s: int|
            #![trigger points[s]]
            #![trigger scales[s]]
            0 <= s < n implies point.ensures(((s / 7) as usize, (s % 7) as usize), points[s])
            && extent.ensures(((s / 7) as usize,), scales[s]) by {
            if s < n - 1 {
                assert(p0[s] == points[s] && s0[s] == scales[s]);
                assert(point.ensures(((s / 7) as usize, (s % 7) as usize), p0[s]));
            } else {
                assert(is_kept(
                    point,
                    extent,
                    n_views,
                    sees,
                    n - 1,
                    points.last(),
                    scales.last(),
                ));
            }
        }
    }
}

/// A point is in the frustum if it lies between the near and the far plane, on neither, and
/// projects into the rectangle or onto its edge. A number that is none is nowhere.
pub proof fn frusta_are_boxes(r: FrustumRange, z: F32, x: F32, y: F32)
    requires
        !r.near.nan() && !r.far.nan(),
        !r.min_x.nan() && !r.max_x.nan(),
        !r.min_y.nan() && !r.max_y.nan(),
    ensures
        is_inside(r, z, x, y) <==> {
            &&& !z.nan() && !x.nan() && !y.nan()
            &&& r.near.rank() < z.rank() < r.far.rank()
            &&& r.min_x.rank() <= x.rank() <= r.max_x.rank()
            &&& r.min_y.rank() <= y.rank() <= r.max_y.rank()
        },
{
}

} // verus!
