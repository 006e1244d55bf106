//! The choice of evaluation views and what is counted in each.

use crate::eval::holes;
use crate::eval::raster::RgbImage;
use crate::float::F32;
use crate::sort;
use vstd::prelude::*;

verus! {

/// Sort keys that put the largest distance first.
pub open spec fn far_first(dist: Seq<F32>) -> Seq<i64> {
    Seq::new(dist.len(), |i: int| (-dist[i].rank()) as i64)
}

/// The number of views to choose from: the farther half, but no fewer than are wanted.
pub open spec fn pool_size(len: int, n: int) -> int {
    if len / 2 >= n {
        len / 2
    } else {
        n
    }
}

/// `pool` are the `pool_size` farthest views, by ascending index. Of equally far views the
/// first ones count as farther.
pub open spec fn is_pool(dist: Seq<F32>, n: int, pool: Seq<usize>) -> bool {
    exists|order: Seq<usize>| #[trigger]
        sort::is_stable_order(far_first(dist), order) && pool.to_multiset() == order.take(
            pool_size(dist.len() as int, n),
        ).to_multiset() && (forall|i: int, j: int|
            #![trigger pool[i], pool[j]]
            0 <= i < j < pool.len() ==> pool[i] < pool[j])
}

/// `picked` are `n` views, spread evenly over the pool.
pub open spec fn is_spread(dist: Seq<F32>, n: int, picked: Seq<usize>) -> bool {
    exists|pool: Seq<usize>| #[trigger]
        is_pool(dist, n, pool) && pool.len() == pool_size(dist.len() as int, n) && picked
            == Seq::new(n as nat, |k: int| pool[k * pool.len() / n])
}

/// Choose `n` views: of those whose distance from the centre of the cameras is in the
/// farther half, evenly many in frame order. The choice depends on the cameras alone.
pub fn select_views(dist: &Vec<F32>, n: usize) -> (picked: Vec<usize>)
    requires
        forall|i: int| 0 <= i < dist@.len() ==> !(#[trigger] dist@[i]).nan(),
    ensures
        ({
            let m = if n <= dist@.len() {
                n as int
            } else {
                dist@.len() as int
            };
            &&& picked@.len() == m
            &&& m > 0 ==> is_spread(dist@, m, picked@)
            &&& forall|k: int| 0 <= k < m ==> #[trigger] picked@[k] < dist@.len()
            &&& forall|a: int, b: int|
                #![trigger picked@[a], picked@[b]]
                0 <= a < b < m ==> picked@[a] < picked@[b]
        }),
{
    let len: usize = dist.len();
    let n: usize = if n <= len {
        n
    } else {
        len
    };
    if n == 0 {
        return Vec::new();
    }
    let mut keys: Vec<i64> = Vec::new();
    for i in 0..len
        invariant
            len == dist@.len(),
            keys@ =~= far_first(dist@).take(i as int),
            forall|i: int| 0 <= i < dist@.len() ==> !(#[trigger] dist@[i]).nan(),
    {
        keys.push(-dist[i].to_rank());
    }
    assert(keys@ =~= far_first(dist@));
    let order = sort::stable_order(&keys);
    let m: usize = if len / 2 >= n {
        len / 2
    } else {
        n
    };
    let mut pool: Vec<usize> = Vec::new();
    for a in 0..m
        invariant
            m <= order@.len(),
            pool@ =~= order@.take(a as int),
    {
        pool.push(order[a]);
    }
    let ghost start = pool@;
    sort::sort_ids(&mut pool);
    proof {
        start.to_multiset_ensures();
        pool@.to_multiset_ensures();
        assert(start.no_duplicates()) by {
            assert forall|a: int, b: int| 0 <= a < start.len() && 0 <= b < start.len() && a
                != b implies start[a] != start[b] by {
                if a < b {
                    assert(sort::precedes(keys@, order@[a], order@[b]));
                } else {
                    assert(sort::precedes(keys@, order@[b], order@[a]));
                }
            }
        }
        start.lemma_multiset_has_no_duplicates();
        pool@.lemma_multiset_has_no_duplicates_conv();
        assert(pool@.len() == m);
        assert forall|i: int, j: int|
            #![trigger pool@[i], pool@[j]]
            0 <= i < j < pool@.len() implies pool@[i] < pool@[j] by {
            assert(pool@[i] != pool@[j]);
        }
        assert forall|i: int| 0 <= i < pool@.len() implies #[trigger] pool@[i] < len by {
            assert(pool@.contains(pool@[i]));
            assert(pool@.to_multiset().count(pool@[i]) > 0);
            assert(start.contains(pool@[i]));
        }
        assert(is_pool(dist@, n as int, pool@));
    }
    let mut picked: Vec<usize> = Vec::new();
    for k in 0..n
        invariant
            n >= 1,
            n <= m,
            m == pool@.len(),
            picked@ =~= Seq::new(k as nat, |i: int| pool@[i * pool@.len() / (n as int)]),
    {
        proof {
            spread_index(k as int, m as int, n as int);
            assert(k * m <= u64::MAX * u64::MAX) by (nonlinear_arith)
                requires
                    0 <= k <= u64::MAX,
                    0 <= m <= u64::MAX,
            ;
        }
        let at: usize = (k as u128 * m as u128 / n as u128) as usize;
        picked.push(pool[at]);
    }
    proof {
        assert forall|k: int| 0 <= k < n implies #[trigger] picked@[k] < len by {
            spread_index(k, m as int, n as int);
        }
        assert forall|a: int, b: int|
            #![trigger picked@[a], picked@[b]]
            0 <= a < b < n implies picked@[a] < picked@[b] by {
            spread_index(a, m as int, n as int);
            spread_index(b, m as int, n as int);
            spread_apart(a, b, m as int, n as int);
        }
        assert(is_spread(dist@, n as int, picked@));
    }
    picked
}

proof fn spread_index(k: int, m: int, n: int)
    requires
        0 <= k < n <= m,
    ensures
        0 <= k * m / n < m,
{
    assert(0 <= k * m / n < m) by (nonlinear_arith)
        requires
            0 <= k < n <= m,
    ;
}

/// Evenly spread picks are apart where there are no more of them than places.
proof fn spread_apart(a: int, b: int, m: int, n: int)
    requires
        0 <= a < b < n <= m,
    ensures
        a * m / n < b * m / n,
{
    assert(b * m >= a * m + n) by (nonlinear_arith)
        requires
            0 <= a < b,
            n <= m,
            n > 0,
    ;
    assert(a * m / n < b * m / n) by (nonlinear_arith)
        requires
            b * m >= a * m + n,
            n > 0,
    ;
}

/// The number of the first `n` pixels that are not background.
pub open spec fn covered(pixels: Seq<[u8; 3]>, n: int) -> nat
    decreases n,
{
    if n <= 0 {
        0
    } else if holes::is_black(pixels[n - 1]) {
        covered(pixels, n - 1)
    } else {
        covered(pixels, n - 1) + 1
    }
}

/// The number of pixels that the mesh covers.
pub fn count_covered(img: &RgbImage) -> (hit: usize)
    ensures
        hit == covered(img.pixels@, img.pixels@.len() as int),
        hit <= img.pixels@.len(),
{
    let mut hit: usize = 0;
    for i in 0..img.pixels.len()
        invariant
            hit == covered(img.pixels@, i as int),
            hit <= i,
    {
        let p = img.pixels[i];
        if p[0] != 0 || p[1] != 0 || p[2] != 0 {
            hit += 1;
        }
    }
    hit
}

pub open spec fn square_error(a: u8, b: u8) -> int {
    (a - b) * (a - b)
}

/// The sum of squared channel differences over the first `n` pixels that the mesh covers.
pub open spec fn masked_error(mesh: Seq<[u8; 3]>, target: Seq<[u8; 3]>, n: int) -> int
    decreases n,
{
    if n <= 0 {
        0
    } else if holes::is_black(mesh[n - 1]) {
        masked_error(mesh, target, n - 1)
    } else {
        masked_error(mesh, target, n - 1) + square_error(mesh[n - 1][0], target[n - 1][0])
            + square_error(mesh[n - 1][1], target[n - 1][1]) + square_error(
            mesh[n - 1][2],
            target[n - 1][2],
        )
    }
}

fn squared(a: u8, b: u8) -> (r: u128)
    ensures
        r == square_error(a, b),
        r <= 65025,
{
    let d: u128 = if a >= b {
        (a - b) as u128
    } else {
        (b - a) as u128
    };
    assert(d * d == square_error(a, b) && d * d <= 65025) by (nonlinear_arith)
        requires
            d == a - b || d == b - a,
            0 <= d <= 255,
    ;
    d * d
}

/// The squared error of a rendered mesh against `target`, over the pixels that the mesh
/// covers, and the number of channels that went into it.
pub fn sum_masked_error(mesh: &RgbImage, target: &RgbImage) -> (r: (u128, u128))
    ensures
        ({
            let n = if mesh.pixels@.len() <= target.pixels@.len() {
                mesh.pixels@.len() as int
            } else {
                target.pixels@.len() as int
            };
            &&& r.0 == masked_error(mesh.pixels@, target.pixels@, n)
            &&& r.1 == 3 * covered(mesh.pixels@, n)
        }),
{
    let n: usize = if mesh.pixels.len() <= target.pixels.len() {
        mesh.pixels.len()
    } else {
        target.pixels.len()
    };
    let mut sum: u128 = 0;
    let mut count: u128 = 0;
    for i in 0..n
        invariant
            n <= mesh.pixels@.len(),
            n <= target.pixels@.len(),
            sum == masked_error(mesh.pixels@, target.pixels@, i as int),
            count == 3 * covered(mesh.pixels@, i as int),
            sum <= 195075 * i,
            count <= 3 * i,
    {
        let m = mesh.pixels[i];
        let t = target.pixels[i];
        if m[0] != 0 || m[1] != 0 || m[2] != 0 {
            sum = sum + squared(m[0], t[0]) + squared(m[1], t[1]) + squared(m[2], t[2]);
            count = count + 3;
        }
    }
    (sum, count)
}

/// Pick `k` of `n` lies as far along the pool as `k` lies along the picks.
pub open spec fn is_spread_pick(pool: Seq<usize>, n: int, picked: Seq<usize>, k: int) -> bool {
    exists|p: int|
        0 <= p < pool.len() && picked[k] == #[trigger] pool[p] && p * n <= k * pool.len() < (p + 1)
            * n
}

/// The views are picked from the farther half, or from as many as are wanted where that is more: no
/// view outside the pool is farther than one in it, and of equally far ones the first are in it.
/// The picks are spread over the pool, which is in frame order, as evenly as they can be.
pub proof fn picked_views_are_far_and_spread(dist: Seq<F32>, n: int, picked: Seq<usize>) -> (pool: Seq<
    usize,
>)
    requires
        0 < n <= dist.len(),
        is_spread(dist, n, picked),
    ensures
        picked.len() == n,
        pool.len() >= n && pool.len() >= dist.len() / 2,
        pool.len() == n || pool.len() == dist.len() / 2,
        forall|a: int, b: int|
            #![trigger pool[a], pool[b]]
            0 <= a < b < pool.len() ==> pool[a] < pool[b],
        forall|i: usize, j: usize|
            #![trigger pool.contains(i), pool.contains(j)]
            pool.contains(i) && j < dist.len() && !pool.contains(j) ==> i < dist.len()
                && dist[j as int].rank() <= dist[i as int].rank() && (dist[j as int].rank()
                == dist[i as int].rank() ==> i < j),
        forall|k: int| 0 <= k < n ==> #[trigger] is_spread_pick(pool, n, picked, k),
{
    let pool = choose|pool: Seq<usize>| #[trigger]
        is_pool(dist, n, pool) && pool.len() == pool_size(dist.len() as int, n) && picked
            == Seq::new(n as nat, |k: int| pool[k * pool.len() / n]);
    let keys = far_first(dist);
    let m = pool_size(dist.len() as int, n);
    let order = choose|order: Seq<usize>| #[trigger]
        sort::is_stable_order(keys, order) && pool.to_multiset() == order.take(m).to_multiset() && (
        forall|i: int, j: int|
            #![trigger pool[i], pool[j]]
            0 <= i < j < pool.len() ==> pool[i] < pool[j]);
    assert forall|i: usize| #[trigger] pool.contains(i) <==> order.take(m).contains(i) by {
        vstd::seq_lib::to_multiset_contains(pool, i);
        vstd::seq_lib::to_multiset_contains(order.take(m), i);
    }
    assert forall|i: usize, j: usize|
        #![trigger pool.contains(i), pool.contains(j)]
        pool.contains(i) && j < dist.len() && !pool.contains(j) implies i < dist.len()
        && dist[j as int].rank() <= dist[i as int].rank() && (dist[j as int].rank()
        == dist[i as int].rank() ==> i < j) by {
        let a = order.take(m).index_of(i);
        assert(order[a] == i);
        assert(order.contains(j));
        let b = order.index_of(j);
        if b < m {
            assert(order.take(m)[b] == j);
            assert(order.take(m).contains(j));
        }
        sort::stable_orders_ascend(keys, order, a, b);
    }
    assert forall|k: int| 0 <= k < n implies #[trigger] is_spread_pick(pool, n, picked, k) by {
        let p = k * pool.len() / n;
        let t = k * pool.len() as int;
        vstd::arithmetic::div_mod::lemma_fundamental_div_mod(t, n);
        assert(0 <= t < pool.len() * n) by (nonlinear_arith)
            requires
                0 <= k < n,
                t == k * pool.len(),
                pool.len() > 0,
        ;
        assert(p * n <= t < (p + 1) * n && 0 <= p < pool.len()) by (nonlinear_arith)
            requires
                p == t / n,
                t == n * (t / n) + t % n,
                0 <= t % n < n,
                0 <= t < pool.len() * n,
                n > 0,
        ;
        assert(picked[k] == pool[p]);
    }
    pool
}

/// The pixels that are not black.
pub open spec fn lit_before(pixels: Seq<[u8; 3]>, n: int) -> Set<int> {
    Set::new(
        |i: int| 0 <= i < n && (pixels[i][0] != 0 || pixels[i][1] != 0 || pixels[i][2] != 0),
    )
}

/// The pixels that the mesh covers are those that are not black, each counted once.
pub proof fn covered_pixels_are_counted_once(pixels: Seq<[u8; 3]>, n: int)
    requires
        0 <= n <= pixels.len(),
    ensures
        lit_before(pixels, n).finite(),
        lit_before(pixels, n).len() == covered(pixels, n),
    decreases n,
{
    if n > 0 {
        covered_pixels_are_counted_once(pixels, n - 1);
        let before = lit_before(pixels, n - 1);
        if pixels[n - 1][0] != 0 || pixels[n - 1][1] != 0 || pixels[n - 1][2] != 0 {
            assert(lit_before(pixels, n) =~= before.insert(n - 1));
        } else {
            assert(lit_before(pixels, n) =~= before);
        }
    } else {
        assert(lit_before(pixels, n) =~= Set::empty());
    }
}

/// One more pixel adds the squares of its three differences where the mesh covers it, and nothing
/// where it does not.
pub proof fn errors_add_up(mesh: Seq<[u8; 3]>, target: Seq<[u8; 3]>, n: int)
    requires
        0 <= n < mesh.len(),
        n < target.len(),
    ensures
        masked_error(mesh, target, 0) == 0,
        ({
            let (p, q) = (mesh[n], target[n]);
            let (a, b, c) = (p[0] - q[0], p[1] - q[1], p[2] - q[2]);
            masked_error(mesh, target, n + 1) - masked_error(mesh, target, n) == (if p[0] == 0
                && p[1] == 0 && p[2] == 0 {
                0
            } else {
                a * a + b * b + c * c
            })
        }),
{
}

/// There is no error if and only if the images agree wherever the mesh covers them.
pub proof fn equal_images_have_no_error(mesh: Seq<[u8; 3]>, target: Seq<[u8; 3]>, n: int)
    requires
        0 <= n <= mesh.len(),
        n <= target.len(),
    ensures
        masked_error(mesh, target, n) >= 0,
        masked_error(mesh, target, n) == 0 <==> forall|i: int|
            #![trigger mesh[i]]
            lit_before(mesh, n).contains(i) ==> mesh[i][0] == target[i][0] && mesh[i][1]
                == target[i][1] && mesh[i][2] == target[i][2],
    decreases n,
{
    if n > 0 {
        let m = n - 1;
        equal_images_have_no_error(mesh, target, m);
        errors_add_up(mesh, target, m);
        let (p, q) = (mesh[m], target[m]);
        let (a, b, c) = (p[0] - q[0], p[1] - q[1], p[2] - q[2]);
        assert(a * a >= 0 && b * b >= 0 && c * c >= 0 && (a * a == 0 <==> a == 0) && (b * b == 0
            <==> b == 0) && (c * c == 0 <==> c == 0)) by (nonlinear_arith);
        assert forall|i: int| 0 <= i < m implies (#[trigger] lit_before(mesh, n).contains(i)
            <==> lit_before(mesh, m).contains(i)) by {}
        if masked_error(mesh, target, n) == 0 {
            assert forall|i: int|
                #![trigger mesh[i]]
                lit_before(mesh, n).contains(i) implies mesh[i][0] == target[i][0] && mesh[i][1]
                == target[i][1] && mesh[i][2] == target[i][2] by {
                if i < m {
                    assert(lit_before(mesh, m).contains(i));
                }
            }
        }
        if forall|i: int|
            #![trigger mesh[i]]
            lit_before(mesh, n).contains(i) ==> mesh[i][0] == target[i][0] && mesh[i][1]
                == target[i][1] && mesh[i][2] == target[i][2] {
            assert forall|i: int|
                #![trigger mesh[i]]
                lit_before(mesh, m).contains(i) implies mesh[i][0] == target[i][0] && mesh[i][1]
                == target[i][1] && mesh[i][2] == target[i][2] by {
                assert(lit_before(mesh, n).contains(i));
            }
            assert(lit_before(mesh, n).contains(m) <==> !(p[0] == 0 && p[1] == 0 && p[2] == 0));
        }
    }
}

} // verus!
